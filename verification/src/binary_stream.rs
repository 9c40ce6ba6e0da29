//! A byte buffer with a read cursor: the positional codec under every packet.
//!
//! Writes always append to the buffer and leave the cursor alone. Reads start at the
//! cursor and move it past what they took; a read that would run over the end of the
//! buffer fails and leaves the stream as it was.

use crate::endian::{
    decode_int, decode_uint, encode_int, encode_uint, i16_from_bits, i16_to_bits, i32_from_bits,
    i32_to_bits, i64_from_bits, i64_to_bits, i8_from_bits, i8_to_bits, lemma_decode_uint_bound,
    lemma_radix_values, radix, to_signed, to_unsigned, uint_from_bytes, uint_to_bytes, Endianness,
};
use vstd::prelude::*;
use vstd::string::*;
use vstd::utf8::*;

verus! {

/// Why a read from a [`BinaryStream`] failed.
#[derive(Debug, Clone, Copy, PartialEq, Eq, Hash, Structural)]
pub enum BinaryStreamError {
    /// Fewer bytes remain after the cursor than the read needs.
    OutOfBounds,
    /// A length field announces more bytes than remain after it.
    InvalidLength,
    /// The bytes of a string are not UTF-8.
    InvalidUtf8,
}

/// A growable byte buffer and the position of the next read.
#[derive(Debug)]
pub struct BinaryStream {
    pub binary: Vec<u8>,
    pub offset: usize,
}

/// `String::from_utf8` of std: the text that `bytes` encode in UTF-8, or nothing where
/// they are no valid UTF-8.
#[verifier::external_body]
fn string_from_utf8(bytes: Vec<u8>) -> (text: Option<String>)
    ensures
        text is Some <==> valid_utf8(bytes@),
        text is Some ==> encode_utf8(text->Some_0@) == bytes@,
{
    String::from_utf8(bytes).ok()
}

impl BinaryStream {
    /// Whether `size` bytes remain after the cursor.
    pub open spec fn can_read(&self, size: nat) -> bool {
        self.offset + size <= self.binary@.len()
    }

    /// The `size` bytes after the cursor.
    pub open spec fn peek(&self, size: nat) -> Seq<u8> {
        self.binary@.subrange(self.offset as int, self.offset + size)
    }

    /// How a read of `size` bytes relates the stream before and after it: the buffer
    /// stays, the read succeeds exactly if `size` bytes remained, and the cursor moves
    /// past them only then.
    pub open spec fn read_step(&self, after: &BinaryStream, size: nat, success: bool) -> bool {
        &&& after.binary@ == self.binary@
        &&& success == self.can_read(size)
        &&& after.offset == if success {
            self.offset + size
        } else {
            self.offset as int
        }
    }

    /// A stream over `binary`, or over nothing, with the cursor at `offset`, or at the
    /// start.
    pub fn new(binary: Option<Vec<u8>>, offset: Option<usize>) -> (stream: BinaryStream)
        ensures
            stream.binary@ == (match binary {
                Some(bytes) => bytes@,
                None => Seq::empty(),
            }),
            stream.offset == (match offset {
                Some(position) => position,
                None => 0,
            }),
    {
        let binary = match binary {
            Some(bytes) => bytes,
            None => Vec::new(),
        };
        let offset = match offset {
            Some(position) => position,
            None => 0,
        };
        BinaryStream { binary, offset }
    }

    /// A stream over `binary` with the cursor at `offset`, or at the start.
    pub fn from(binary: Vec<u8>, offset: Option<usize>) -> (stream: BinaryStream)
        ensures
            stream.binary@ == binary@,
            stream.offset == (match offset {
                Some(position) => position,
                None => 0,
            }),
    {
        let offset = match offset {
            Some(position) => position,
            None => 0,
        };
        BinaryStream { binary, offset }
    }

    /// Takes the next `size` bytes.
    pub fn read(&mut self, size: usize) -> (result: Result<Vec<u8>, BinaryStreamError>)
        ensures
            old(self).read_step(final(self), size as nat, result is Ok),
            result matches Ok(data) ==> data@ == old(self).peek(size as nat),
            result matches Err(e) ==> e == BinaryStreamError::OutOfBounds,
    {
        let len: usize = self.binary.len();
        if self.offset > len || len - self.offset < size {
            return Err(BinaryStreamError::OutOfBounds);
        }
        let start: usize = self.offset;
        let end: usize = start + size;
        let mut data: Vec<u8> = Vec::new();
        let mut i: usize = start;
        while i < end
            invariant
                start <= i <= end,
                end <= self.binary@.len(),
                data@ == self.binary@.subrange(start as int, i as int),
            decreases end - i,
        {
            data.push(self.binary[i]);
            proof {
                assert(data@ =~= self.binary@.subrange(start as int, i + 1));
            }
            i += 1;
        }
        self.offset = end;
        Ok(data)
    }

    /// Appends `data` to the buffer.
    pub fn write(&mut self, data: Vec<u8>)
        ensures
            final(self).binary@ == old(self).binary@ + data@,
            final(self).offset == old(self).offset,
    {
        let mut data = data;
        self.binary.append(&mut data);
    }

    /// Moves the cursor `size` bytes on, whether or not the buffer reaches that far.
    pub fn skip(&mut self, size: usize)
        requires
            old(self).offset + size <= usize::MAX,
        ensures
            final(self).offset == old(self).offset + size,
            final(self).binary@ == old(self).binary@,
    {
        self.offset = self.offset + size;
    }

    pub fn get_offset(&self) -> (offset: usize)
        ensures
            offset == self.offset,
    {
        self.offset
    }

    pub fn set_offset(&mut self, offset: usize)
        ensures
            final(self).offset == offset,
            final(self).binary@ == old(self).binary@,
    {
        self.offset = offset;
    }

    /// A copy of the whole buffer.
    pub fn get_binary(&self) -> (binary: Vec<u8>)
        ensures
            binary@ == self.binary@,
    {
        self.binary.clone()
    }

    pub fn set_binary(&mut self, binary: Vec<u8>)
        ensures
            final(self).binary@ == binary@,
            final(self).offset == old(self).offset,
    {
        self.binary = binary;
    }

    /// Takes every byte from the cursor to the end of the buffer; nothing where the
    /// cursor already stands at or past the end.
    pub fn read_remaining(&mut self) -> (data: Vec<u8>)
        ensures
            final(self).binary@ == old(self).binary@,
            old(self).offset <= old(self).binary@.len() ==> {
                &&& data@ == old(self).binary@.subrange(
                    old(self).offset as int,
                    old(self).binary@.len() as int,
                )
                &&& final(self).offset == old(self).binary@.len()
            },
            old(self).offset > old(self).binary@.len() ==> {
                &&& data@ == Seq::<u8>::empty()
                &&& final(self).offset == old(self).offset
            },
    {
        let len: usize = self.binary.len();
        if self.offset > len {
            return Vec::new();
        }
        match self.read(len - self.offset) {
            Ok(data) => data,
            Err(_) => Vec::new(),
        }
    }

    pub fn cursor_at_start(&self) -> (at_start: bool)
        ensures
            at_start == (self.offset == 0),
    {
        self.offset == 0
    }

    pub fn cursor_at_end(&self) -> (at_end: bool)
        ensures
            at_end == (self.offset == self.binary@.len()),
    {
        self.offset == self.binary.len()
    }

    /// Takes the next `size` bytes.
    pub fn read_bytes(&mut self, size: usize) -> (result: Result<Vec<u8>, BinaryStreamError>)
        ensures
            old(self).read_step(final(self), size as nat, result is Ok),
            result matches Ok(data) ==> data@ == old(self).peek(size as nat),
            result matches Err(e) ==> e == BinaryStreamError::OutOfBounds,
    {
        self.read(size)
    }

    /// Appends `data` to the buffer.
    pub fn write_bytes(&mut self, data: Vec<u8>)
        ensures
            final(self).binary@ == old(self).binary@ + data@,
            final(self).offset == old(self).offset,
    {
        self.write(data)
    }

    /// Takes the sixteen bytes of an offline-message marker, whatever they hold.
    pub fn read_magic(&mut self) -> (result: Result<Vec<u8>, BinaryStreamError>)
        ensures
            old(self).read_step(final(self), 16, result is Ok),
            result matches Ok(data) ==> data@ == old(self).peek(16),
            result matches Err(e) ==> e == BinaryStreamError::OutOfBounds,
    {
        self.read(16)
    }

    /// Appends the bytes of an offline-message marker.
    pub fn write_magic(&mut self, magic: Vec<u8>)
        ensures
            final(self).binary@ == old(self).binary@ + magic@,
            final(self).offset == old(self).offset,
    {
        self.write(magic)
    }

    /// Takes an unsigned integer of `width` bytes.
    fn read_uint(&mut self, width: usize, endianness: Endianness) -> (result: Result<
        u64,
        BinaryStreamError,
    >)
        requires
            width <= 8,
        ensures
            old(self).read_step(final(self), width as nat, result is Ok),
            result matches Ok(value) ==> value == decode_uint(
                old(self).peek(width as nat),
                endianness,
            ) && value < radix(width as nat),
            result matches Err(e) ==> e == BinaryStreamError::OutOfBounds,
    {
        match self.read(width) {
            Ok(bytes) => {
                proof {
                    lemma_decode_uint_bound(bytes@, endianness);
                }
                Ok(uint_from_bytes(&bytes, endianness))
            },
            Err(e) => Err(e),
        }
    }

    /// Appends the `width` low-order bytes of `value`.
    fn write_uint(&mut self, value: u64, width: usize, endianness: Endianness)
        ensures
            final(self).binary@ == old(self).binary@ + encode_uint(
                value as nat,
                width as nat,
                endianness,
            ),
            final(self).offset == old(self).offset,
    {
        let bytes = uint_to_bytes(value, width, endianness);
        self.write(bytes);
    }

    pub fn read_byte(&mut self) -> (result: Result<u8, BinaryStreamError>)
        ensures
            old(self).read_step(final(self), 1, result is Ok),
            result matches Ok(value) ==> value == old(self).binary@[old(self).offset as int],
            result matches Err(e) ==> e == BinaryStreamError::OutOfBounds,
    {
        self.read_u8()
    }

    pub fn write_byte(&mut self, value: u8)
        ensures
            final(self).binary@ == old(self).binary@.push(value),
            final(self).offset == old(self).offset,
    {
        self.write_u8(value)
    }

    pub fn read_u8(&mut self) -> (result: Result<u8, BinaryStreamError>)
        ensures
            old(self).read_step(final(self), 1, result is Ok),
            result matches Ok(value) ==> value == old(self).binary@[old(self).offset as int],
            result matches Err(e) ==> e == BinaryStreamError::OutOfBounds,
    {
        let len: usize = self.binary.len();
        if self.offset >= len {
            return Err(BinaryStreamError::OutOfBounds);
        }
        let value: u8 = self.binary[self.offset];
        self.offset = self.offset + 1;
        Ok(value)
    }

    pub fn write_u8(&mut self, value: u8)
        ensures
            final(self).binary@ == old(self).binary@.push(value),
            final(self).offset == old(self).offset,
    {
        self.binary.push(value);
    }

    pub fn read_u16(&mut self, endianness: Endianness) -> (result: Result<u16, BinaryStreamError>)
        ensures
            old(self).read_step(final(self), 2, result is Ok),
            result matches Ok(value) ==> value == decode_uint(old(self).peek(2), endianness),
            result matches Err(e) ==> e == BinaryStreamError::OutOfBounds,
    {
        proof {
            lemma_radix_values();
        }
        match self.read_uint(2, endianness) {
            Ok(value) => Ok(value as u16),
            Err(e) => Err(e),
        }
    }

    pub fn write_u16(&mut self, value: u16, endianness: Endianness)
        ensures
            final(self).binary@ == old(self).binary@ + encode_uint(value as nat, 2, endianness),
            final(self).offset == old(self).offset,
    {
        self.write_uint(value as u64, 2, endianness)
    }

    /// Takes three bytes as an unsigned integer; the result is below `2^24`.
    pub fn read_u24(&mut self, endianness: Endianness) -> (result: Result<u32, BinaryStreamError>)
        ensures
            old(self).read_step(final(self), 3, result is Ok),
            result matches Ok(value) ==> value == decode_uint(old(self).peek(3), endianness)
                && value < 0x100_0000,
            result matches Err(e) ==> e == BinaryStreamError::OutOfBounds,
    {
        proof {
            lemma_radix_values();
        }
        match self.read_uint(3, endianness) {
            Ok(value) => Ok(value as u32),
            Err(e) => Err(e),
        }
    }

    /// Appends the three low-order bytes of `value`.
    pub fn write_u24(&mut self, value: u32, endianness: Endianness)
        ensures
            final(self).binary@ == old(self).binary@ + encode_uint(value as nat, 3, endianness),
            final(self).offset == old(self).offset,
    {
        self.write_uint(value as u64, 3, endianness)
    }

    pub fn read_u32(&mut self, endianness: Endianness) -> (result: Result<u32, BinaryStreamError>)
        ensures
            old(self).read_step(final(self), 4, result is Ok),
            result matches Ok(value) ==> value == decode_uint(old(self).peek(4), endianness),
            result matches Err(e) ==> e == BinaryStreamError::OutOfBounds,
    {
        proof {
            lemma_radix_values();
        }
        match self.read_uint(4, endianness) {
            Ok(value) => Ok(value as u32),
            Err(e) => Err(e),
        }
    }

    pub fn write_u32(&mut self, value: u32, endianness: Endianness)
        ensures
            final(self).binary@ == old(self).binary@ + encode_uint(value as nat, 4, endianness),
            final(self).offset == old(self).offset,
    {
        self.write_uint(value as u64, 4, endianness)
    }

    pub fn read_u64(&mut self, endianness: Endianness) -> (result: Result<u64, BinaryStreamError>)
        ensures
            old(self).read_step(final(self), 8, result is Ok),
            result matches Ok(value) ==> value == decode_uint(old(self).peek(8), endianness),
            result matches Err(e) ==> e == BinaryStreamError::OutOfBounds,
    {
        self.read_uint(8, endianness)
    }

    pub fn write_u64(&mut self, value: u64, endianness: Endianness)
        ensures
            final(self).binary@ == old(self).binary@ + encode_uint(value as nat, 8, endianness),
            final(self).offset == old(self).offset,
    {
        self.write_uint(value, 8, endianness)
    }

    /// Takes one byte as a truth value: zero is false, anything else true.
    pub fn read_bool(&mut self) -> (result: Result<bool, BinaryStreamError>)
        ensures
            old(self).read_step(final(self), 1, result is Ok),
            result matches Ok(value) ==> value == (old(self).binary@[old(self).offset as int]
                != 0),
            result matches Err(e) ==> e == BinaryStreamError::OutOfBounds,
    {
        match self.read_u8() {
            Ok(value) => Ok(value != 0),
            Err(e) => Err(e),
        }
    }

    /// Appends one byte: 1 for true, 0 for false.
    pub fn write_bool(&mut self, value: bool)
        ensures
            final(self).binary@ == old(self).binary@.push(
                if value {
                    1u8
                } else {
                    0u8
                },
            ),
            final(self).offset == old(self).offset,
    {
        self.write_u8(
            if value {
                1
            } else {
                0
            },
        )
    }

    pub fn read_i8(&mut self) -> (result: Result<i8, BinaryStreamError>)
        ensures
            old(self).read_step(final(self), 1, result is Ok),
            result matches Ok(value) ==> value == to_signed(
                old(self).binary@[old(self).offset as int] as nat,
                1,
            ),
            result matches Err(e) ==> e == BinaryStreamError::OutOfBounds,
    {
        match self.read_u8() {
            Ok(value) => Ok(i8_from_bits(value)),
            Err(e) => Err(e),
        }
    }

    pub fn write_i8(&mut self, value: i8)
        ensures
            final(self).binary@ == old(self).binary@.push(to_unsigned(value as int, 1) as u8),
            final(self).offset == old(self).offset,
    {
        self.write_u8(i8_to_bits(value))
    }

    pub fn read_i16(&mut self, endianness: Endianness) -> (result: Result<i16, BinaryStreamError>)
        ensures
            old(self).read_step(final(self), 2, result is Ok),
            result matches Ok(value) ==> value == decode_int(old(self).peek(2), endianness),
            result matches Err(e) ==> e == BinaryStreamError::OutOfBounds,
    {
        match self.read_u16(endianness) {
            Ok(value) => Ok(i16_from_bits(value)),
            Err(e) => Err(e),
        }
    }

    pub fn write_i16(&mut self, value: i16, endianness: Endianness)
        ensures
            final(self).binary@ == old(self).binary@ + encode_int(value as int, 2, endianness),
            final(self).offset == old(self).offset,
    {
        self.write_u16(i16_to_bits(value), endianness)
    }

    /// Takes three bytes as an unsigned integer, widened with zeros: the result is
    /// never negative.
    pub fn read_i24(&mut self, endianness: Endianness) -> (result: Result<i32, BinaryStreamError>)
        ensures
            old(self).read_step(final(self), 3, result is Ok),
            result matches Ok(value) ==> value == decode_uint(old(self).peek(3), endianness)
                && 0 <= value < 0x100_0000,
            result matches Err(e) ==> e == BinaryStreamError::OutOfBounds,
    {
        match self.read_u24(endianness) {
            Ok(value) => Ok(value as i32),
            Err(e) => Err(e),
        }
    }

    /// Appends the three low-order bytes of the 32-bit two's complement of `value`.
    pub fn write_i24(&mut self, value: i32, endianness: Endianness)
        ensures
            final(self).binary@ == old(self).binary@ + encode_uint(
                to_unsigned(value as int, 4),
                3,
                endianness,
            ),
            final(self).offset == old(self).offset,
    {
        self.write_u24(i32_to_bits(value), endianness)
    }

    pub fn read_i32(&mut self, endianness: Endianness) -> (result: Result<i32, BinaryStreamError>)
        ensures
            old(self).read_step(final(self), 4, result is Ok),
            result matches Ok(value) ==> value == decode_int(old(self).peek(4), endianness),
            result matches Err(e) ==> e == BinaryStreamError::OutOfBounds,
    {
        match self.read_u32(endianness) {
            Ok(value) => Ok(i32_from_bits(value)),
            Err(e) => Err(e),
        }
    }

    pub fn write_i32(&mut self, value: i32, endianness: Endianness)
        ensures
            final(self).binary@ == old(self).binary@ + encode_int(value as int, 4, endianness),
            final(self).offset == old(self).offset,
    {
        self.write_u32(i32_to_bits(value), endianness)
    }

    pub fn read_i64(&mut self, endianness: Endianness) -> (result: Result<i64, BinaryStreamError>)
        ensures
            old(self).read_step(final(self), 8, result is Ok),
            result matches Ok(value) ==> value == decode_int(old(self).peek(8), endianness),
            result matches Err(e) ==> e == BinaryStreamError::OutOfBounds,
    {
        match self.read_u64(endianness) {
            Ok(value) => Ok(i64_from_bits(value)),
            Err(e) => Err(e),
        }
    }

    pub fn write_i64(&mut self, value: i64, endianness: Endianness)
        ensures
            final(self).binary@ == old(self).binary@ + encode_int(value as int, 8, endianness),
            final(self).offset == old(self).offset,
    {
        self.write_u64(i64_to_bits(value), endianness)
    }

    /// Takes a signed 64-bit integer.
    pub fn read_long(&mut self, endianness: Endianness) -> (result: Result<i64, BinaryStreamError>)
        ensures
            old(self).read_step(final(self), 8, result is Ok),
            result matches Ok(value) ==> value == decode_int(old(self).peek(8), endianness),
            result matches Err(e) ==> e == BinaryStreamError::OutOfBounds,
    {
        self.read_i64(endianness)
    }

    /// Appends a signed 64-bit integer.
    pub fn write_long(&mut self, value: i64, endianness: Endianness)
        ensures
            final(self).binary@ == old(self).binary@ + encode_int(value as int, 8, endianness),
            final(self).offset == old(self).offset,
    {
        self.write_i64(value, endianness)
    }

    /// Takes an unsigned 16-bit integer.
    pub fn read_short(&mut self, endianness: Endianness) -> (result: Result<
        u16,
        BinaryStreamError,
    >)
        ensures
            old(self).read_step(final(self), 2, result is Ok),
            result matches Ok(value) ==> value == decode_uint(old(self).peek(2), endianness),
            result matches Err(e) ==> e == BinaryStreamError::OutOfBounds,
    {
        self.read_u16(endianness)
    }

    /// Appends an unsigned 16-bit integer.
    pub fn write_short(&mut self, value: u16, endianness: Endianness)
        ensures
            final(self).binary@ == old(self).binary@ + encode_uint(value as nat, 2, endianness),
            final(self).offset == old(self).offset,
    {
        self.write_u16(value, endianness)
    }

    /// What a string read finds at the cursor: the length field, then as many bytes
    /// of UTF-8.
    pub open spec fn string16_outcome(&self, endianness: Endianness) -> Result<
        Seq<u8>,
        BinaryStreamError,
    > {
        if !self.can_read(2) {
            Err(BinaryStreamError::OutOfBounds)
        } else {
            let length = decode_uint(self.peek(2), endianness);
            if !self.can_read(2 + length) {
                Err(BinaryStreamError::InvalidLength)
            } else {
                let body = self.binary@.subrange(self.offset + 2, self.offset + 2 + length);
                if valid_utf8(body) {
                    Ok(body)
                } else {
                    Err(BinaryStreamError::InvalidUtf8)
                }
            }
        }
    }

    /// Takes a string: a 16-bit length and that many bytes of UTF-8. On any failure
    /// the cursor stays where it was.
    pub fn read_string16(&mut self, endianness: Endianness) -> (result: Result<
        String,
        BinaryStreamError,
    >)
        ensures
            final(self).binary@ == old(self).binary@,
            match (result, old(self).string16_outcome(endianness)) {
                (Ok(text), Ok(body)) => encode_utf8(text@) == body && text@ == decode_utf8(body)
                    && final(self).offset == old(self).offset + 2 + body.len(),
                (Err(e), Err(expected)) => e == expected && final(self).offset == old(
                    self,
                ).offset,
                _ => false,
            },
    {
        let start: usize = self.offset;
        let length: u16 = match self.read_u16(endianness) {
            Ok(length) => length,
            Err(e) => {
                return Err(e);
            },
        };
        let body: Vec<u8> = match self.read(length as usize) {
            Ok(body) => body,
            Err(_) => {
                self.offset = start;
                return Err(BinaryStreamError::InvalidLength);
            },
        };
        match string_from_utf8(body) {
            Some(text) => {
                proof {
                    encode_utf8_decode_utf8(text@);
                }
                Ok(text)
            },
            None => {
                self.offset = start;
                Err(BinaryStreamError::InvalidUtf8)
            },
        }
    }

    /// Appends a string: its length in bytes as a 16-bit integer, then its UTF-8 bytes.
    pub fn write_string16(&mut self, data: &str, endianness: Endianness)
        requires
            data.spec_bytes().len() <= 0xFFFF,
        ensures
            final(self).binary@ == old(self).binary@ + encode_uint(
                data.spec_bytes().len(),
                2,
                endianness,
            ) + data.spec_bytes(),
            final(self).offset == old(self).offset,
    {
        let bytes: Vec<u8> = data.as_bytes_vec();
        self.write_u16(bytes.len() as u16, endianness);
        self.write(bytes);
    }
}

} // verus!
