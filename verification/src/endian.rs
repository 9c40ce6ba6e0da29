//! Byte order and the fixed-width integer encodings of the wire format.
//!
//! Every multi-byte integer on the wire is an unsigned number written in base 256,
//! least significant byte first (little endian) or last (big endian). Signed numbers
//! travel in two's complement.

use vstd::prelude::*;

verus! {

/// The order in which the bytes of a multi-byte integer appear on the wire.
#[derive(Debug, Clone, Copy, PartialEq, Eq, Hash, Structural)]
pub enum Endianness {
    Big,
    Little,
}

/// `256^width`: the number of values that `width` bytes can hold.
pub open spec fn radix(width: nat) -> nat
    decreases width,
{
    if width == 0 {
        1
    } else {
        256 * radix((width - 1) as nat)
    }
}

/// The `width` low-order base-256 digits of `value`, least significant first.
pub open spec fn le_bytes(value: nat, width: nat) -> Seq<u8>
    decreases width,
{
    if width == 0 {
        Seq::empty()
    } else {
        seq![(value % 256) as u8] + le_bytes(value / 256, (width - 1) as nat)
    }
}

/// The number whose base-256 digits, least significant first, are `bytes`.
pub open spec fn le_value(bytes: Seq<u8>) -> nat
    decreases bytes.len(),
{
    if bytes.len() == 0 {
        0
    } else {
        bytes[0] as nat + 256 * le_value(bytes.drop_first())
    }
}

/// The wire form of the unsigned number `value` in `width` bytes.
pub open spec fn encode_uint(value: nat, width: nat, endianness: Endianness) -> Seq<u8> {
    match endianness {
        Endianness::Little => le_bytes(value, width),
        Endianness::Big => le_bytes(value, width).reverse(),
    }
}

/// The unsigned number that `bytes` spell in the given byte order.
pub open spec fn decode_uint(bytes: Seq<u8>, endianness: Endianness) -> nat {
    match endianness {
        Endianness::Little => le_value(bytes),
        Endianness::Big => le_value(bytes.reverse()),
    }
}

/// The unsigned number that stands for `value` in two's complement of `width` bytes.
pub open spec fn to_unsigned(value: int, width: nat) -> nat {
    if value < 0 {
        (value + radix(width)) as nat
    } else {
        value as nat
    }
}

/// The signed number that `value` stands for in two's complement of `width` bytes.
pub open spec fn to_signed(value: nat, width: nat) -> int {
    if 2 * value >= radix(width) {
        value - radix(width)
    } else {
        value as int
    }
}

/// The wire form of the signed number `value` in `width` bytes.
pub open spec fn encode_int(value: int, width: nat, endianness: Endianness) -> Seq<u8> {
    encode_uint(to_unsigned(value, width), width, endianness)
}

/// The signed number that `bytes` spell in the given byte order.
pub open spec fn decode_int(bytes: Seq<u8>, endianness: Endianness) -> int {
    to_signed(decode_uint(bytes, endianness), bytes.len())
}

/// The powers of 256 up to the eighth.
pub proof fn lemma_radix_values()
    ensures
        radix(0) == 1,
        radix(1) == 0x100,
        radix(2) == 0x1_0000,
        radix(3) == 0x100_0000,
        radix(4) == 0x1_0000_0000,
        radix(5) == 0x100_0000_0000,
        radix(6) == 0x1_0000_0000_0000,
        radix(7) == 0x100_0000_0000_0000,
        radix(8) == 0x1_0000_0000_0000_0000,
{
    reveal_with_fuel(radix, 10);
}

/// A number written in `width` bytes takes `width` bytes.
pub proof fn lemma_le_bytes_len(value: nat, width: nat)
    ensures
        le_bytes(value, width).len() == width,
    decreases width,
{
    if width > 0 {
        lemma_le_bytes_len(value / 256, (width - 1) as nat);
    }
}

/// A wire form of `width` bytes has `width` bytes.
pub proof fn lemma_encode_uint_len(value: nat, width: nat, endianness: Endianness)
    ensures
        encode_uint(value, width, endianness).len() == width,
{
    lemma_le_bytes_len(value, width);
}

/// The number that bytes spell is below the power of 256 of their count.
pub proof fn lemma_le_value_bound(bytes: Seq<u8>)
    ensures
        le_value(bytes) < radix(bytes.len()),
    decreases bytes.len(),
{
    if bytes.len() > 0 {
        lemma_le_value_bound(bytes.drop_first());
    }
}

/// The number that bytes spell in either order is below the power of 256 of their
/// count.
pub proof fn lemma_decode_uint_bound(bytes: Seq<u8>, endianness: Endianness)
    ensures
        decode_uint(bytes, endianness) < radix(bytes.len()),
{
    lemma_le_value_bound(bytes);
    lemma_le_value_bound(bytes.reverse());
}

/// Decoding what was encoded gives the value back, cut to the width.
pub proof fn lemma_le_value_of_le_bytes(value: nat, width: nat)
    ensures
        le_value(le_bytes(value, width)) == value % radix(width),
    decreases width,
{
    if width == 0 {
    } else {
        let rest = le_bytes(value / 256, (width - 1) as nat);
        let all = le_bytes(value, width);
        lemma_le_value_of_le_bytes(value / 256, (width - 1) as nat);
        assert(all.drop_first() =~= rest);
        let r = radix((width - 1) as nat);
        lemma_radix_positive((width - 1) as nat);
        let q = value / 256;
        let c = value % 256;
        let a = q / r;
        let b = q % r;
        assert(q == r * a + b) by {
            vstd::arithmetic::div_mod::lemma_fundamental_div_mod(q as int, r as int);
        }
        assert(value == a * (256 * r) + (256 * b + c)) by (nonlinear_arith)
            requires
                value == 256 * q + c,
                q == r * a + b,
        ;
        assert(0 <= 256 * b + c < 256 * r) by (nonlinear_arith)
            requires
                0 <= b < r,
                0 <= c < 256,
        ;
        assert(le_value(all) == 256 * b + c);
        vstd::arithmetic::div_mod::lemma_fundamental_div_mod_converse(
            value as int,
            (256 * r) as int,
            a as int,
            (256 * b + c) as int,
        );
    }
}

/// Every power of 256 is positive.
pub proof fn lemma_radix_positive(width: nat)
    ensures
        radix(width) > 0,
    decreases width,
{
    if width > 0 {
        lemma_radix_positive((width - 1) as nat);
    }
}

/// Encoding what was decoded gives the bytes back.
pub proof fn lemma_le_bytes_of_le_value(bytes: Seq<u8>)
    ensures
        le_bytes(le_value(bytes), bytes.len()) == bytes,
    decreases bytes.len(),
{
    if bytes.len() == 0 {
        assert(le_bytes(0, 0) =~= bytes);
    } else {
        let rest = bytes.drop_first();
        lemma_le_bytes_of_le_value(rest);
        let v = le_value(bytes);
        assert(v == bytes[0] as nat + 256 * le_value(rest));
        assert(v % 256 == bytes[0] as nat);
        assert(v / 256 == le_value(rest));
        assert(le_bytes(v, bytes.len()) =~= seq![bytes[0]] + rest);
        assert(seq![bytes[0]] + rest =~= bytes);
    }
}

/// In one byte either byte order writes the number's low-order byte.
pub proof fn lemma_encode_one_byte(value: nat, endianness: Endianness)
    ensures
        encode_uint(value, 1, endianness) == seq![(value % 256) as u8],
{
    reveal_with_fuel(le_bytes, 2);
    let le = le_bytes(value, 1);
    assert(le =~= seq![(value % 256) as u8]);
    assert(le.reverse() =~= le);
}

/// One byte spells its own value in either byte order.
pub proof fn lemma_decode_one_byte(bytes: Seq<u8>, endianness: Endianness)
    requires
        bytes.len() == 1,
    ensures
        decode_uint(bytes, endianness) == bytes[0],
{
    reveal_with_fuel(le_value, 2);
    assert(bytes.reverse() =~= bytes);
}

/// An unsigned number that fits its width survives the trip through the wire form,
/// in either byte order.
pub proof fn lemma_uint_round_trip(value: nat, width: nat, endianness: Endianness)
    requires
        value < radix(width),
    ensures
        decode_uint(encode_uint(value, width, endianness), endianness) == value,
        encode_uint(value, width, endianness).len() == width,
{
    lemma_le_value_of_le_bytes(value, width);
    lemma_le_bytes_len(value, width);
    let le = le_bytes(value, width);
    assert(le.reverse().reverse() =~= le);
    assert(value % radix(width) == value) by {
        vstd::arithmetic::div_mod::lemma_small_mod(value, radix(width));
    }
}

/// Of a number that is wider than its wire form the low-order bytes survive the trip.
pub proof fn lemma_uint_truncated_round_trip(value: nat, width: nat, endianness: Endianness)
    ensures
        decode_uint(encode_uint(value, width, endianness), endianness) == value % radix(width),
{
    lemma_le_value_of_le_bytes(value, width);
    let le = le_bytes(value, width);
    assert(le.reverse().reverse() =~= le);
}

/// What is appended to a buffer as the wire form of a number that fits its width is
/// read back from that place as the same number.
pub proof fn lemma_uint_read_back(buffer: Seq<u8>, value: nat, width: nat, endianness: Endianness)
    requires
        value < radix(width),
    ensures
        decode_uint(
            (buffer + encode_uint(value, width, endianness)).subrange(
                buffer.len() as int,
                (buffer.len() + width) as int,
            ),
            endianness,
        ) == value,
{
    lemma_uint_round_trip(value, width, endianness);
    let written = encode_uint(value, width, endianness);
    assert((buffer + written).subrange(buffer.len() as int, (buffer.len() + width) as int)
        =~= written);
}

/// What is appended to a buffer as the wire form of a signed number that fits its
/// width is read back from that place as the same number.
pub proof fn lemma_int_read_back(buffer: Seq<u8>, value: int, width: nat, endianness: Endianness)
    requires
        width > 0,
        -(radix(width) as int) <= 2 * value < radix(width),
    ensures
        decode_int(
            (buffer + encode_int(value, width, endianness)).subrange(
                buffer.len() as int,
                (buffer.len() + width) as int,
            ),
            endianness,
        ) == value,
{
    lemma_int_round_trip(value, width, endianness);
    let written = encode_int(value, width, endianness);
    assert((buffer + written).subrange(buffer.len() as int, (buffer.len() + width) as int)
        =~= written);
}

/// Every number of a fixed-width type fits the width of its type.
pub proof fn lemma_types_fit(a: u8, b: u16, c: u32, d: u64, e: i8, f: i16, g: i32, h: i64)
    ensures
        a < radix(1),
        b < radix(2),
        c < radix(4),
        d < radix(8),
        -(radix(1) as int) <= 2 * e < radix(1),
        -(radix(2) as int) <= 2 * f < radix(2),
        -(radix(4) as int) <= 2 * g < radix(4),
        -(radix(8) as int) <= 2 * h < radix(8),
{
    lemma_radix_values();
}

/// A wire form decodes to exactly one number: encoding that number gives the bytes back.
pub proof fn lemma_uint_bytes_round_trip(bytes: Seq<u8>, endianness: Endianness)
    ensures
        encode_uint(decode_uint(bytes, endianness), bytes.len(), endianness) == bytes,
{
    lemma_le_bytes_of_le_value(bytes);
    lemma_le_bytes_of_le_value(bytes.reverse());
    assert(bytes.reverse().reverse() =~= bytes);
}

/// A signed number that fits its width survives the trip through the wire form,
/// in either byte order.
pub proof fn lemma_int_round_trip(value: int, width: nat, endianness: Endianness)
    requires
        width > 0,
        -(radix(width) as int) <= 2 * value < radix(width),
    ensures
        decode_int(encode_int(value, width, endianness), endianness) == value,
        encode_int(value, width, endianness).len() == width,
{
    lemma_radix_positive(width);
    lemma_uint_round_trip(to_unsigned(value, width), width, endianness);
}

/// The bytes of `bytes` in the opposite order.
fn reversed(bytes: &Vec<u8>) -> (out: Vec<u8>)
    ensures
        out@ == bytes@.reverse(),
{
    let mut out: Vec<u8> = Vec::new();
    let len: usize = bytes.len();
    let mut i: usize = 0;
    while i < len
        invariant
            len == bytes@.len(),
            i <= len,
            out@.len() == i,
            forall|k: int| 0 <= k < i ==> out@[k] == bytes@[len - 1 - k],
        decreases len - i,
    {
        out.push(bytes[len - 1 - i]);
        i += 1;
    }
    assert(out@ =~= bytes@.reverse());
    out
}

/// The wire form of `value` in `width` bytes: its `width` low-order bytes in the
/// given order.
pub fn uint_to_bytes(value: u64, width: usize, endianness: Endianness) -> (bytes: Vec<u8>)
    ensures
        bytes@ == encode_uint(value as nat, width as nat, endianness),
        bytes@.len() == width,
{
    let mut le: Vec<u8> = Vec::new();
    let mut rest: u64 = value;
    let mut i: usize = 0;
    while i < width
        invariant
            i <= width,
            le@.len() == i,
            le@ + le_bytes(rest as nat, (width - i) as nat) == le_bytes(
                value as nat,
                width as nat,
            ),
        decreases width - i,
    {
        let ghost before = le@;
        le.push((rest % 256) as u8);
        proof {
            let tail = le_bytes((rest / 256) as nat, (width - i - 1) as nat);
            assert(before + (seq![(rest % 256) as u8] + tail) =~= le@ + tail);
        }
        rest = rest / 256;
        i += 1;
    }
    proof {
        assert(le@ + le_bytes(rest as nat, 0) =~= le@);
    }
    match endianness {
        Endianness::Little => le,
        Endianness::Big => reversed(&le),
    }
}

/// The number that at most eight bytes spell in the given order.
pub fn uint_from_bytes(bytes: &Vec<u8>, endianness: Endianness) -> (value: u64)
    requires
        bytes@.len() <= 8,
    ensures
        value == decode_uint(bytes@, endianness),
{
    let len: usize = bytes.len();
    let mut acc: u64 = 0;
    let mut i: usize = 0;
    proof {
        lemma_radix_values();
    }
    match endianness {
        Endianness::Little => {
            while i < len
                invariant
                    len == bytes@.len(),
                    len <= 8,
                    i <= len,
                    acc == le_value(bytes@.subrange(len - i, len as int)),
                    acc < radix(i as nat),
                decreases len - i,
            {
                let b: u8 = bytes[len - 1 - i];
                proof {
                    let wider = bytes@.subrange(len - i - 1, len as int);
                    assert(wider.drop_first() =~= bytes@.subrange(len - i, len as int));
                    lemma_le_value_bound(wider);
                    lemma_radix_le(i as nat + 1, 8);
                    lemma_radix_values();
                }
                acc = acc * 256 + b as u64;
                i += 1;
            }
            proof {
                assert(bytes@.subrange(0, len as int) =~= bytes@);
            }
        },
        Endianness::Big => {
            while i < len
                invariant
                    len == bytes@.len(),
                    len <= 8,
                    i <= len,
                    acc == le_value(bytes@.subrange(0, i as int).reverse()),
                    acc < radix(i as nat),
                decreases len - i,
            {
                let b: u8 = bytes[i];
                proof {
                    let wider = bytes@.subrange(0, i + 1).reverse();
                    assert(wider.drop_first() =~= bytes@.subrange(0, i as int).reverse());
                    lemma_le_value_bound(wider);
                    lemma_radix_le(i as nat + 1, 8);
                    lemma_radix_values();
                }
                acc = acc * 256 + b as u64;
                i += 1;
            }
            proof {
                assert(bytes@.subrange(0, len as int) =~= bytes@);
            }
        },
    }
    acc
}

/// The powers of 256 rise with the exponent.
pub proof fn lemma_radix_le(small: nat, large: nat)
    requires
        small <= large,
    ensures
        radix(small) <= radix(large),
    decreases large,
{
    if small < large {
        lemma_radix_le(small, (large - 1) as nat);
    }
}

/// The 64-bit two's complement pattern of `value`.
pub fn i64_to_bits(value: i64) -> (bits: u64)
    ensures
        bits == to_unsigned(value as int, 8),
{
    proof {
        lemma_radix_values();
    }
    if value >= 0 {
        value as u64
    } else {
        (value - i64::MIN) as u64 + 0x8000_0000_0000_0000u64
    }
}

/// The number whose 64-bit two's complement pattern is `bits`.
pub fn i64_from_bits(bits: u64) -> (value: i64)
    ensures
        value == to_signed(bits as nat, 8),
{
    proof {
        lemma_radix_values();
    }
    if bits < 0x8000_0000_0000_0000u64 {
        bits as i64
    } else {
        (bits - 0x8000_0000_0000_0000u64) as i64 + i64::MIN
    }
}

/// The 32-bit two's complement pattern of `value`.
pub fn i32_to_bits(value: i32) -> (bits: u32)
    ensures
        bits == to_unsigned(value as int, 4),
{
    proof {
        lemma_radix_values();
    }
    if value >= 0 {
        value as u32
    } else {
        (value - i32::MIN) as u32 + 0x8000_0000u32
    }
}

/// The number whose 32-bit two's complement pattern is `bits`.
pub fn i32_from_bits(bits: u32) -> (value: i32)
    ensures
        value == to_signed(bits as nat, 4),
{
    proof {
        lemma_radix_values();
    }
    if bits < 0x8000_0000u32 {
        bits as i32
    } else {
        (bits - 0x8000_0000u32) as i32 + i32::MIN
    }
}

/// The 16-bit two's complement pattern of `value`.
pub fn i16_to_bits(value: i16) -> (bits: u16)
    ensures
        bits == to_unsigned(value as int, 2),
{
    proof {
        lemma_radix_values();
    }
    if value >= 0 {
        value as u16
    } else {
        (value - i16::MIN) as u16 + 0x8000u16
    }
}

/// The number whose 16-bit two's complement pattern is `bits`.
pub fn i16_from_bits(bits: u16) -> (value: i16)
    ensures
        value == to_signed(bits as nat, 2),
{
    proof {
        lemma_radix_values();
    }
    if bits < 0x8000u16 {
        bits as i16
    } else {
        (bits - 0x8000u16) as i16 + i16::MIN
    }
}

/// The 8-bit two's complement pattern of `value`.
pub fn i8_to_bits(value: i8) -> (bits: u8)
    ensures
        bits == to_unsigned(value as int, 1),
{
    proof {
        lemma_radix_values();
    }
    if value >= 0 {
        value as u8
    } else {
        (value - i8::MIN) as u8 + 0x80u8
    }
}

/// The number whose 8-bit two's complement pattern is `bits`.
pub fn i8_from_bits(bits: u8) -> (value: i8)
    ensures
        value == to_signed(bits as nat, 1),
{
    proof {
        lemma_radix_values();
    }
    if bits < 0x80u8 {
        bits as i8
    } else {
        (bits - 0x80u8) as i8 + i8::MIN
    }
}

} // verus!
