//! A peer address: an IP version, the address as text, and a port.
//!
//! An IPv4 address is written as four decimal numbers of at most three digits, each
//! at most 255, with `.` between them. An IPv6 address is written as eight hexadecimal
//! numbers of at most four digits with `:` between them.
//!
//! On the wire an address starts with its version. Version 4 is followed by the four
//! octets, each complemented bit by bit, and the port. Version 6 is followed by the
//! address family (23), the port, a flow word of zeros, the eight groups, each
//! complemented bit by bit, and a scope word of zeros. Every other version stands
//! alone. All numbers are big endian.

use crate::address::notation::{format_text, parse_text};
use crate::binary_stream::{BinaryStream, BinaryStreamError};
use crate::endian::{
    decode_uint, encode_uint, lemma_decode_one_byte, lemma_encode_one_byte, lemma_radix_values,
    Endianness,
};
use crate::packet::{lift, DataType, PacketError};
use vstd::prelude::*;
use vstd::string::*;

pub mod laws;
pub mod notation;

pub use crate::address::notation::{
    colon_groups, digit_char, digit_run, digit_value, digits_value, dotted_quad, format_fields,
    format_number, is_digit, parse_address, parse_fields, Notation,
};

verus! {

/// A peer address: the IP version, the address as text, and the port.
#[derive(Debug, PartialEq, Eq)]
pub struct Address {
    pub version: u8,
    pub address: String,
    pub port: u16,
}

/// An address as a mathematical value.
pub struct AddressView {
    pub version: u8,
    pub address: Seq<char>,
    pub port: u16,
}

impl View for Address {
    type V = AddressView;

    open spec fn view(&self) -> AddressView {
        AddressView { version: self.version, address: self.address@, port: self.port }
    }
}

/// Each number taken from `limit`: for octets and groups, the bitwise complement.
pub open spec fn complement(values: Seq<nat>, limit: nat) -> Seq<nat> {
    Seq::new(values.len(), |i: int| (limit - values[i]) as nat)
}

/// The numbers written one after the other, each in `width` bytes, big endian.
pub open spec fn encode_numbers(values: Seq<nat>, width: nat) -> Seq<u8>
    decreases values.len(),
{
    if values.len() == 0 {
        Seq::empty()
    } else {
        encode_numbers(values.drop_last(), width) + encode_uint(
            values.last(),
            width,
            Endianness::Big,
        )
    }
}

/// The `count` numbers of `width` bytes each that stand at `at`, big endian.
pub open spec fn decode_numbers(bytes: Seq<u8>, at: int, count: nat, width: nat) -> Seq<nat> {
    Seq::new(
        count,
        |i: int| decode_uint(bytes.subrange(at + i * width, at + (i + 1) * width), Endianness::Big),
    )
}

impl AddressView {
    /// The address has a wire form: its text is an address of its version.
    pub open spec fn encodable(self) -> bool {
        if self.version == 4 {
            parse_address(self.address, dotted_quad()) is Some
        } else if self.version == 6 {
            parse_address(self.address, colon_groups()) is Some
        } else {
            true
        }
    }

    /// The wire form of an encodable address.
    pub open spec fn encode(self) -> Seq<u8> {
        if self.version == 4 {
            seq![4u8] + encode_numbers(
                complement(parse_address(self.address, dotted_quad())->Some_0, 255),
                1,
            ) + encode_uint(self.port as nat, 2, Endianness::Big)
        } else if self.version == 6 {
            seq![6u8] + encode_uint(23, 2, Endianness::Big) + encode_uint(
                self.port as nat,
                2,
                Endianness::Big,
            ) + encode_uint(0, 4, Endianness::Big) + encode_numbers(
                complement(parse_address(self.address, colon_groups())->Some_0, 0xFFFF),
                2,
            ) + encode_uint(0, 4, Endianness::Big)
        } else {
            seq![self.version]
        }
    }

    /// How many bytes the address at `offset` takes, going by its version byte.
    pub open spec fn wire_len(version: u8) -> nat {
        if version == 4 {
            7
        } else if version == 6 {
            29
        } else {
            1
        }
    }

    /// The address that stands at `offset`, and the offset after it. An address of an
    /// unknown version has no text and port 0.
    pub open spec fn decode(bytes: Seq<u8>, offset: int) -> Result<
        (AddressView, int),
        BinaryStreamError,
    > {
        if offset + 1 > bytes.len() {
            Err(BinaryStreamError::OutOfBounds)
        } else {
            let version = bytes[offset];
            if offset + AddressView::wire_len(version) > bytes.len() {
                Err(BinaryStreamError::OutOfBounds)
            } else if version == 4 {
                Ok(
                    (
                        AddressView {
                            version,
                            address: format_fields(
                                complement(decode_numbers(bytes, offset + 1, 4, 1), 255),
                                dotted_quad(),
                            ),
                            port: decode_uint(
                                bytes.subrange(offset + 5, offset + 7),
                                Endianness::Big,
                            ) as u16,
                        },
                        offset + 7,
                    ),
                )
            } else if version == 6 {
                Ok(
                    (
                        AddressView {
                            version,
                            address: format_fields(
                                complement(decode_numbers(bytes, offset + 9, 8, 2), 0xFFFF),
                                colon_groups(),
                            ),
                            port: decode_uint(
                                bytes.subrange(offset + 3, offset + 5),
                                Endianness::Big,
                            ) as u16,
                        },
                        offset + 29,
                    ),
                )
            } else {
                Ok((AddressView { version, address: Seq::empty(), port: 0 }, offset + 1))
            }
        }
    }
}

impl Clone for Address {
    fn clone(&self) -> (copy: Address)
        ensures
            copy@ == self@,
    {
        Address { version: self.version, address: self.address.clone(), port: self.port }
    }
}

impl Address {
    pub fn new(version: u8, address: String, port: u16) -> (result: Address)
        ensures
            result.version == version,
            result.address == address,
            result.port == port,
    {
        Address { version, address, port }
    }

    /// The IPv4 address `0.0.0.0` with port 0.
    pub fn default() -> (result: Address)
        ensures
            result@ == (AddressView { version: 4, address: "0.0.0.0"@, port: 0 }),
    {
        Address { version: 4, address: String::from_str("0.0.0.0"), port: 0 }
    }

    /// Whether the text is an address of the version.
    pub fn is_encodable(&self) -> (encodable: bool)
        ensures
            encodable == self@.encodable(),
    {
        if self.version == 4 {
            parse_text(self.address.as_str(), false).is_some()
        } else if self.version == 6 {
            parse_text(self.address.as_str(), true).is_some()
        } else {
            true
        }
    }

    /// Appends the wire form of the address to `stream`. An address whose text is no
    /// address of its version is refused and leaves the stream as it was.
    pub fn write(&self, stream: &mut BinaryStream) -> (result: Result<(), PacketError>)
        ensures
            final(stream).offset == old(stream).offset,
            self@.encodable() ==> result is Ok && final(stream).binary@ == old(stream).binary@
                + self@.encode(),
            !self@.encodable() ==> result == Err::<(), PacketError>(
                PacketError::SerializationError,
            ) && final(stream).binary@ == old(stream).binary@,
    {
        let ghost before = stream.binary@;
        if self.version == 4 {
            let octets = match parse_text(self.address.as_str(), false) {
                Some(octets) => octets,
                None => {
                    return Err(PacketError::SerializationError);
                },
            };
            stream.write_u8(self.version);
            write_complements(stream, &octets, false);
            stream.write_u16(self.port, Endianness::Big);
            proof {
                let numbers = parse_address(self.address@, dotted_quad())->Some_0;
                assert(Seq::new(octets@.len(), |i: int| octets@[i] as nat) == numbers);
                assert(stream.binary@ =~= before + self@.encode());
            }
        } else if self.version == 6 {
            let groups = match parse_text(self.address.as_str(), true) {
                Some(groups) => groups,
                None => {
                    return Err(PacketError::SerializationError);
                },
            };
            stream.write_u8(self.version);
            stream.write_u16(23, Endianness::Big);
            stream.write_u16(self.port, Endianness::Big);
            stream.write_u32(0, Endianness::Big);
            write_complements(stream, &groups, true);
            stream.write_u32(0, Endianness::Big);
            proof {
                let numbers = parse_address(self.address@, colon_groups())->Some_0;
                assert(Seq::new(groups@.len(), |i: int| groups@[i] as nat) == numbers);
                assert(stream.binary@ =~= before + self@.encode());
            }
        } else {
            stream.write_u8(self.version);
            proof {
                assert(stream.binary@ =~= before + self@.encode());
            }
        }
        Ok(())
    }

    /// Takes one address from `stream`. On failure the stream stays as it was.
    pub fn read(stream: &mut BinaryStream) -> (result: Result<Address, BinaryStreamError>)
        ensures
            final(stream).binary@ == old(stream).binary@,
            match AddressView::decode(old(stream).binary@, old(stream).offset as int) {
                Ok((address, next)) => {
                    &&& result matches Ok(read) && read@ == address
                    &&& final(stream).offset == next
                },
                Err(e) => {
                    &&& result == Err::<Address, BinaryStreamError>(e)
                    &&& final(stream).offset == old(stream).offset
                },
            },
    {
        let start: usize = stream.offset;
        let len: usize = stream.binary.len();
        if start >= len {
            return Err(BinaryStreamError::OutOfBounds);
        }
        let version: u8 = stream.binary[start];
        let needed: usize = if version == 4 {
            7
        } else if version == 6 {
            29
        } else {
            1
        };
        if len - start < needed {
            return Err(BinaryStreamError::OutOfBounds);
        }
        let ghost bytes = stream.binary@;
        if version == 4 {
            let octets = read_complements(stream, start + 1, 4, false);
            let address = format_text(&octets, false);
            stream.offset = start + 5;
            let port: u16 = match stream.read_u16(Endianness::Big) {
                Ok(v) => v,
                Err(e) => {
                    stream.offset = start;
                    return Err(e);
                },
            };
            proof {
                assert(Seq::new(octets@.len(), |i: int| octets@[i] as nat) =~= complement(
                    decode_numbers(bytes, start + 1, 4, 1),
                    255,
                ));
            }
            Ok(Address { version, address, port })
        } else if version == 6 {
            stream.offset = start + 3;
            let port: u16 = match stream.read_u16(Endianness::Big) {
                Ok(v) => v,
                Err(e) => {
                    stream.offset = start;
                    return Err(e);
                },
            };
            let groups = read_complements(stream, start + 9, 8, true);
            let address = format_text(&groups, true);
            stream.offset = start + 29;
            proof {
                assert(Seq::new(groups@.len(), |i: int| groups@[i] as nat) =~= complement(
                    decode_numbers(bytes, start + 9, 8, 2),
                    0xFFFF,
                ));
            }
            Ok(Address { version, address, port })
        } else {
            stream.offset = start + 1;
            Ok(Address { version, address: String::new(), port: 0 })
        }
    }
}

/// Appends the complement of each number: one byte each for octets, two for groups.
fn write_complements(stream: &mut BinaryStream, values: &Vec<u32>, wide: bool)
    requires
        forall|i: int|
            0 <= i < values@.len() ==> values@[i] <= (if wide {
                0xFFFFu32
            } else {
                255u32
            }),
    ensures
        final(stream).offset == old(stream).offset,
        final(stream).binary@ == old(stream).binary@ + encode_numbers(
            complement(
                Seq::new(values@.len(), |i: int| values@[i] as nat),
                if wide {
                    0xFFFFnat
                } else {
                    255nat
                },
            ),
            if wide {
                2nat
            } else {
                1nat
            },
        ),
{
    let ghost before = stream.binary@;
    let ghost limit: nat = if wide {
        0xFFFF
    } else {
        255
    };
    let ghost width: nat = if wide {
        2
    } else {
        1
    };
    let ghost numbers = complement(Seq::new(values@.len(), |i: int| values@[i] as nat), limit);
    let mut i: usize = 0;
    proof {
        assert(stream.binary@ =~= before + encode_numbers(numbers.take(0), width));
    }
    while i < values.len()
        invariant
            i <= values@.len(),
            limit == (if wide {
                0xFFFFnat
            } else {
                255nat
            }),
            width == (if wide {
                2nat
            } else {
                1nat
            }),
            numbers == complement(Seq::new(values@.len(), |i: int| values@[i] as nat), limit),
            forall|i: int| 0 <= i < values@.len() ==> values@[i] <= limit,
            stream.offset == old(stream).offset,
            stream.binary@ == before + encode_numbers(numbers.take(i as int), width),
        decreases values@.len() - i,
    {
        let ghost so_far = stream.binary@;
        if wide {
            stream.write_u16((0xFFFF - values[i]) as u16, Endianness::Big);
        } else {
            stream.write_u8((255 - values[i]) as u8);
            proof {
                lemma_encode_one_byte((255 - values@[i as int]) as nat, Endianness::Big);
            }
        }
        proof {
            let longer = numbers.take(i + 1);
            assert(longer.drop_last() =~= numbers.take(i as int));
            assert(longer.last() == (limit - values@[i as int]) as nat);
            assert(stream.binary@ =~= so_far + encode_uint(longer.last(), width, Endianness::Big));
            assert(stream.binary@ =~= before + encode_numbers(longer, width));
        }
        i += 1;
    }
    proof {
        assert(numbers.take(i as int) =~= numbers);
    }
}

/// The complements of the `count` numbers at `at`: one byte each for octets, two for
/// groups. The cursor of the stream is left wherever the reading stopped.
fn read_complements(stream: &mut BinaryStream, at: usize, count: usize, wide: bool) -> (values: Vec<
    u32,
>)
    requires
        1 <= count <= 8,
        at + count * (if wide {
            2int
        } else {
            1int
        }) <= old(stream).binary@.len(),
    ensures
        final(stream).binary@ == old(stream).binary@,
        values@.len() == count,
        forall|i: int| 0 <= i < count ==> values@[i] <= 0xFFFF,
        Seq::new(values@.len(), |i: int| values@[i] as nat) == complement(
            decode_numbers(
                old(stream).binary@,
                at as int,
                count as nat,
                if wide {
                    2nat
                } else {
                    1nat
                },
            ),
            if wide {
                0xFFFFnat
            } else {
                255nat
            },
        ),
{
    let ghost bytes = stream.binary@;
    let ghost width: nat = if wide {
        2
    } else {
        1
    };
    let ghost limit: nat = if wide {
        0xFFFF
    } else {
        255
    };
    let mut values: Vec<u32> = Vec::new();
    let mut i: usize = 0;
    let len: usize = stream.binary.len();
    while i < count
        invariant
            len == bytes.len(),
            i <= count <= 8,
            wide ==> at + count * 2 <= bytes.len(),
            !wide ==> at + count <= bytes.len(),
            stream.binary@ == bytes,
            width == (if wide {
                2nat
            } else {
                1nat
            }),
            limit == (if wide {
                0xFFFFnat
            } else {
                255nat
            }),
            values@.len() == i,
            forall|k: int|
                0 <= k < i ==> values@[k] as nat == (limit - decode_uint(
                    bytes.subrange(at + k * width, at + (k + 1) * width),
                    Endianness::Big,
                )) as nat && #[trigger] values@[k] <= 0xFFFF,
        decreases count - i,
    {
        proof {
            lemma_radix_values();
        }
        if wide {
            stream.offset = at + i * 2;
            let group: u16 = match stream.read_u16(Endianness::Big) {
                Ok(v) => v,
                Err(_) => 0,
            };
            values.push((0xFFFF - group) as u32);
        } else {
            let octet: u8 = stream.binary[at + i];
            proof {
                lemma_decode_one_byte(bytes.subrange(at + i, at + i + 1), Endianness::Big);
            }
            values.push((255 - octet) as u32);
        }
        i += 1;
    }
    proof {
        assert(Seq::new(values@.len(), |i: int| values@[i] as nat) =~= complement(
            decode_numbers(bytes, at as int, count as nat, width),
            limit,
        ));
    }
    values
}

/// The views of a run of addresses, in order.
pub open spec fn addresses_view(list: Seq<Address>) -> Seq<AddressView> {
    Seq::new(list.len(), |i: int| list[i]@)
}

/// Every address of the list has a wire form.
pub open spec fn addresses_encodable(list: Seq<AddressView>) -> bool {
    forall|i: int| 0 <= i < list.len() ==> (#[trigger] list[i]).encodable()
}

/// The wire forms of the addresses, one after the other.
pub open spec fn encode_addresses(list: Seq<AddressView>) -> Seq<u8>
    decreases list.len(),
{
    if list.len() == 0 {
        Seq::empty()
    } else {
        encode_addresses(list.drop_last()) + list.last().encode()
    }
}

/// The `count` addresses that stand at `offset`, and the offset after them.
pub open spec fn decode_addresses(bytes: Seq<u8>, offset: int, count: nat) -> Result<
    (Seq<AddressView>, int),
    BinaryStreamError,
>
    decreases count,
{
    if count == 0 {
        Ok((Seq::empty(), offset))
    } else {
        match AddressView::decode(bytes, offset) {
            Err(e) => Err(e),
            Ok((first, next)) => match decode_addresses(bytes, next, (count - 1) as nat) {
                Err(e) => Err(e),
                Ok((rest, end)) => Ok((seq![first] + rest, end)),
            },
        }
    }
}

/// Whether every address of the list has a wire form.
pub fn all_encodable(list: &Vec<Address>) -> (encodable: bool)
    ensures
        encodable == addresses_encodable(addresses_view(list@)),
{
    let mut i: usize = 0;
    while i < list.len()
        invariant
            i <= list@.len(),
            forall|k: int| 0 <= k < i ==> (#[trigger] addresses_view(list@)[k]).encodable(),
        decreases list@.len() - i,
    {
        if !list[i].is_encodable() {
            assert(!addresses_view(list@)[i as int].encodable());
            return false;
        }
        i += 1;
    }
    true
}

/// Appends the wire forms of addresses that all have one.
pub(crate) fn write_addresses(stream: &mut BinaryStream, list: &Vec<Address>)
    requires
        addresses_encodable(addresses_view(list@)),
    ensures
        final(stream).offset == old(stream).offset,
        final(stream).binary@ == old(stream).binary@ + encode_addresses(addresses_view(list@)),
{
    let ghost before = stream.binary@;
    let ghost views = addresses_view(list@);
    let mut i: usize = 0;
    proof {
        assert(stream.binary@ =~= before + encode_addresses(views.take(0)));
    }
    while i < list.len()
        invariant
            i <= list@.len(),
            views == addresses_view(list@),
            addresses_encodable(views),
            stream.offset == old(stream).offset,
            stream.binary@ == before + encode_addresses(views.take(i as int)),
        decreases list@.len() - i,
    {
        let ghost so_far = stream.binary@;
        assert(views[i as int].encodable());
        let _ = list[i].write(stream);
        proof {
            let longer = views.take(i + 1);
            assert(longer.drop_last() =~= views.take(i as int));
            assert(longer.last() == views[i as int]);
            assert(stream.binary@ =~= before + encode_addresses(longer));
        }
        i += 1;
    }
    proof {
        assert(views.take(i as int) =~= views);
    }
}

/// Takes `count` addresses from `stream`. On failure the cursor is left wherever the
/// reading stopped.
pub(crate) fn read_addresses(stream: &mut BinaryStream, count: usize) -> (result: Result<
    Vec<Address>,
    BinaryStreamError,
>)
    ensures
        final(stream).binary@ == old(stream).binary@,
        match decode_addresses(old(stream).binary@, old(stream).offset as int, count as nat) {
            Ok((list, end)) => {
                &&& result matches Ok(read) && addresses_view(read@) == list
                &&& final(stream).offset == end
            },
            Err(e) => result matches Err(found) && found == e,
        },
{
    let ghost bytes = stream.binary@;
    let ghost start = stream.offset as int;
    let mut list: Vec<Address> = Vec::new();
    let mut i: usize = 0;
    proof {
        match decode_addresses(bytes, start, count as nat) {
            Ok((rest, end)) => {
                assert(addresses_view(list@) + rest =~= rest);
            },
            Err(e) => {},
        }
    }
    while i < count
        invariant
            i <= count,
            bytes == old(stream).binary@,
            start == old(stream).offset,
            stream.binary@ == bytes,
            decode_addresses(bytes, start, count as nat) == (match decode_addresses(
                bytes,
                stream.offset as int,
                (count - i) as nat,
            ) {
                Ok((rest, end)) => Ok::<(Seq<AddressView>, int), BinaryStreamError>(
                    (addresses_view(list@) + rest, end),
                ),
                Err(e) => Err(e),
            }),
        decreases count - i,
    {
        let ghost offset = stream.offset as int;
        let ghost before = addresses_view(list@);
        match Address::read(stream) {
            Ok(address) => {
                proof {
                    match decode_addresses(bytes, stream.offset as int, (count - i - 1) as nat) {
                        Ok((rest, end)) => {
                            assert(before + (seq![address@] + rest) =~= before.push(address@)
                                + rest);
                        },
                        Err(e) => {},
                    }
                }
                list.push(address);
                proof {
                    assert(addresses_view(list@) =~= before.push(list@.last()@));
                }
            },
            Err(e) => {
                proof {
                    assert(decode_addresses(bytes, offset, (count - i) as nat) == Err::<
                        (Seq<AddressView>, int),
                        BinaryStreamError,
                    >(e));
                }
                return Err(e);
            },
        }
        i += 1;
    }
    proof {
        assert(addresses_view(list@) + Seq::<AddressView>::empty() =~= addresses_view(list@));
    }
    Ok(list)
}

impl DataType for Address {
    open spec fn wire_form(&self) -> Option<Seq<u8>> {
        if self@.encodable() {
            Some(self@.encode())
        } else {
            None
        }
    }

    open spec fn reads_as(
        bytes: Seq<u8>,
        offset: int,
        result: Result<Address, PacketError>,
        next: int,
    ) -> bool {
        match AddressView::decode(bytes, offset) {
            Ok((address, end)) => result matches Ok(read) && read@ == address && next == end,
            Err(e) => result == Err::<Address, PacketError>(PacketError::BinaryStreamError(e))
                && next == offset,
        }
    }

    fn read(stream: &mut BinaryStream) -> (result: Result<Address, PacketError>) {
        lift(Address::read(stream))
    }

    fn write(&self, stream: &mut BinaryStream) -> (result: Result<(), PacketError>) {
        Address::write(self, stream)
    }
}

/// A copy of a list of addresses.
pub fn clone_addresses(list: &Vec<Address>) -> (copy: Vec<Address>)
    ensures
        addresses_view(copy@) == addresses_view(list@),
{
    let mut copy: Vec<Address> = Vec::new();
    let mut i: usize = 0;
    while i < list.len()
        invariant
            i <= list@.len(),
            copy@.len() == i,
            forall|k: int| 0 <= k < i ==> (#[trigger] copy@[k])@ == list@[k]@,
        decreases list@.len() - i,
    {
        copy.push(list[i].clone());
        i += 1;
    }
    proof {
        assert(addresses_view(copy@) =~= addresses_view(list@));
    }
    copy
}

impl AddressView {
    /// The address as it reads back from its wire form: the numbers of its text
    /// written without leading zeros and in lower case. An address of an unknown
    /// version reads back without text and with port 0.
    pub open spec fn normal(self) -> AddressView {
        if self.version == 4 {
            AddressView {
                address: format_fields(
                    parse_address(self.address, dotted_quad())->Some_0,
                    dotted_quad(),
                ),
                ..self
            }
        } else if self.version == 6 {
            AddressView {
                address: format_fields(
                    parse_address(self.address, colon_groups())->Some_0,
                    colon_groups(),
                ),
                ..self
            }
        } else {
            AddressView { version: self.version, address: Seq::empty(), port: 0 }
        }
    }
}

/// The normal forms of a list of addresses.
pub open spec fn normal_addresses(list: Seq<AddressView>) -> Seq<AddressView> {
    Seq::new(list.len(), |i: int| list[i].normal())
}

} // verus!
