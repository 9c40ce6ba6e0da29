//! Acknowledgements and negative acknowledgements: lists of datagram sequence numbers
//! in run-length form.
//!
//! After the leading byte comes a big-endian 16-bit count of records. A record is a
//! flag byte and one or two little-endian 24-bit sequence numbers: flag 1 and a single
//! number, or flag 0 and the first and last number of a run of consecutive numbers.

use crate::binary_stream::{BinaryStream, BinaryStreamError};
use crate::endian::{
    decode_uint, encode_uint, lemma_radix_values, lemma_uint_round_trip, Endianness,
};
use crate::frame::INDEX_LIMIT;
use crate::packet::{Packet, PacketError, MAGIC};
use vstd::prelude::*;

verus! {

/// Datagrams that arrived.
#[derive(Debug, PartialEq, Eq)]
pub struct Ack {
    pub sequences: Vec<u32>,
}

/// Datagrams that are missing.
#[derive(Debug, PartialEq, Eq)]
pub struct Nack {
    pub sequences: Vec<u32>,
}

/// Every number is followed only by greater ones.
pub open spec fn strictly_increasing(s: Seq<u32>) -> bool {
    forall|i: int, j: int| 0 <= i < j < s.len() ==> s[i] < s[j]
}

/// The numbers of `set` in rising order.
pub open spec fn ascending(set: Set<u32>) -> Seq<u32> {
    choose|r: Seq<u32>| strictly_increasing(r) && r.to_set() == set
}

/// How many numbers at the start of `s` each follow the one before by exactly one.
pub open spec fn run_len(s: Seq<u32>) -> nat
    decreases s.len(),
{
    if s.len() == 0 {
        0
    } else if s.len() >= 2 && s[1] == s[0] + 1 {
        1 + run_len(s.drop_first())
    } else {
        1
    }
}

/// One record: a single number, or the two ends of a run.
pub open spec fn encode_record(first: u32, last: u32) -> Seq<u8> {
    if first == last {
        seq![1u8] + encode_uint(first as nat, 3, Endianness::Little)
    } else {
        seq![0u8] + encode_uint(first as nat, 3, Endianness::Little) + encode_uint(
            last as nat,
            3,
            Endianness::Little,
        )
    }
}

/// The records of a rising list: one for each longest run of consecutive numbers.
pub open spec fn encode_records(s: Seq<u32>) -> Seq<u8>
    decreases s.len(),
{
    if s.len() == 0 {
        Seq::empty()
    } else {
        let n = run_len(s) as int;
        if 0 < n <= s.len() {
            encode_record(s[0], s[n - 1]) + encode_records(s.skip(n))
        } else {
            Seq::empty()
        }
    }
}

/// The number of records of a rising list.
pub open spec fn count_records(s: Seq<u32>) -> nat
    decreases s.len(),
{
    if s.len() == 0 {
        0
    } else {
        let n = run_len(s) as int;
        if 0 < n <= s.len() {
            1 + count_records(s.skip(n))
        } else {
            0
        }
    }
}

/// The list has a wire form: every number fits 24 bits, and the records of its
/// numbers in rising order can be counted in 16 bits.
pub open spec fn sequences_encodable(sequences: Seq<u32>) -> bool {
    &&& forall|i: int| 0 <= i < sequences.len() ==> sequences[i] < INDEX_LIMIT
    &&& count_records(ascending(sequences.to_set())) <= 0xFFFF
}

/// The wire form of a list of sequence numbers under the leading byte `id`: the
/// numbers are put in rising order, each once, and written as records.
pub open spec fn encode_sequences(id: u8, sequences: Seq<u32>) -> Seq<u8> {
    let sorted = ascending(sequences.to_set());
    seq![id] + encode_uint(count_records(sorted), 2, Endianness::Big) + encode_records(sorted)
}

/// The numbers from `first` to `last`, both included; none where `first` is greater.
pub open spec fn range_inclusive(first: u32, last: u32) -> Seq<u32> {
    if first <= last {
        Seq::new((last - first + 1) as nat, |i: int| (first + i) as u32)
    } else {
        Seq::empty()
    }
}

/// The numbers that `count` records at `offset` list, in the order of the records.
pub open spec fn decode_records(bytes: Seq<u8>, offset: int, count: nat) -> Result<
    Seq<u32>,
    BinaryStreamError,
>
    decreases count,
{
    if count == 0 {
        Ok(Seq::empty())
    } else if offset + 1 > bytes.len() {
        Err(BinaryStreamError::OutOfBounds)
    } else if bytes[offset] != 0 {
        if offset + 4 > bytes.len() {
            Err(BinaryStreamError::OutOfBounds)
        } else {
            let single = decode_uint(bytes.subrange(offset + 1, offset + 4), Endianness::Little)
                as u32;
            match decode_records(bytes, offset + 4, (count - 1) as nat) {
                Ok(rest) => Ok(seq![single] + rest),
                Err(e) => Err(e),
            }
        }
    } else {
        if offset + 7 > bytes.len() {
            Err(BinaryStreamError::OutOfBounds)
        } else {
            let first = decode_uint(bytes.subrange(offset + 1, offset + 4), Endianness::Little)
                as u32;
            let last = decode_uint(bytes.subrange(offset + 4, offset + 7), Endianness::Little)
                as u32;
            match decode_records(bytes, offset + 7, (count - 1) as nat) {
                Ok(rest) => Ok(range_inclusive(first, last) + rest),
                Err(e) => Err(e),
            }
        }
    }
}

/// Reading a packet as a list of sequence numbers under the leading byte `id`.
pub open spec fn decode_sequences(id: u8, bytes: Seq<u8>) -> Result<Seq<u32>, PacketError> {
    if bytes.len() < 1 {
        Err(PacketError::BinaryStreamError(BinaryStreamError::OutOfBounds))
    } else if bytes[0] != id {
        Err(PacketError::InvalidPacket)
    } else if bytes.len() < 3 {
        Err(PacketError::BinaryStreamError(BinaryStreamError::OutOfBounds))
    } else {
        match decode_records(bytes, 3, decode_uint(bytes.subrange(1, 3), Endianness::Big)) {
            Ok(sequences) => Ok(sequences),
            Err(e) => Err(PacketError::BinaryStreamError(e)),
        }
    }
}

/// A rising list is known by the set of its numbers.
pub proof fn lemma_ascending_unique(a: Seq<u32>, b: Seq<u32>)
    requires
        strictly_increasing(a),
        strictly_increasing(b),
        a.to_set() == b.to_set(),
    ensures
        a == b,
    decreases a.len(),
{
    if a.len() == 0 {
        if b.len() > 0 {
            assert(b.contains(b[0]));
            assert(b.to_set().contains(b[0]));
            assert(a.to_set().contains(b[0]));
            assert(a.contains(b[0]));
        }
        assert(a =~= b);
    } else {
        assert(a.contains(a[0]));
        assert(a.to_set().contains(a[0]));
        assert(b.contains(a[0]));
        let j = choose|j: int| 0 <= j < b.len() && b[j] == a[0];
        assert(b.contains(b[0]));
        assert(b.to_set().contains(b[0]));
        assert(a.contains(b[0]));
        let i = choose|i: int| 0 <= i < a.len() && a[i] == b[0];
        assert(a[0] == b[0]);
        let a1 = a.drop_first();
        let b1 = b.drop_first();
        assert(strictly_increasing(a1)) by {
            assert forall|p: int, q: int| 0 <= p < q < a1.len() implies a1[p] < a1[q] by {
                assert(a1[p] == a[p + 1] && a1[q] == a[q + 1]);
            }
        }
        assert(strictly_increasing(b1)) by {
            assert forall|p: int, q: int| 0 <= p < q < b1.len() implies b1[p] < b1[q] by {
                assert(b1[p] == b[p + 1] && b1[q] == b[q + 1]);
            }
        }
        assert(a1.to_set() =~= b1.to_set()) by {
            assert forall|v: u32| a1.to_set().contains(v) <==> b1.to_set().contains(v) by {
                if a1.contains(v) {
                    let p = choose|p: int| 0 <= p < a1.len() && a1[p] == v;
                    assert(a[p + 1] == v);
                    assert(a.contains(v));
                    assert(b.to_set().contains(v));
                    assert(b.contains(v));
                    let q = choose|q: int| 0 <= q < b.len() && b[q] == v;
                    assert(q != 0);
                    assert(b1[q - 1] == v);
                    assert(b1.contains(v));
                }
                if b1.contains(v) {
                    let p = choose|p: int| 0 <= p < b1.len() && b1[p] == v;
                    assert(b[p + 1] == v);
                    assert(b.contains(v));
                    assert(a.to_set().contains(v));
                    assert(a.contains(v));
                    let q = choose|q: int| 0 <= q < a.len() && a[q] == v;
                    assert(q != 0);
                    assert(a1[q - 1] == v);
                    assert(a1.contains(v));
                }
            }
        }
        lemma_ascending_unique(a1, b1);
        assert(a =~= seq![a[0]] + a1);
        assert(b =~= seq![b[0]] + b1);
    }
}

/// A rising list is the rising order of its own numbers.
pub proof fn lemma_ascending_of_increasing(s: Seq<u32>)
    requires
        strictly_increasing(s),
    ensures
        ascending(s.to_set()) == s,
{
    let set = s.to_set();
    assert(strictly_increasing(s) && s.to_set() == set);
    let r = ascending(set);
    assert(strictly_increasing(r) && r.to_set() == set);
    lemma_ascending_unique(r, s);
}

/// Where the first `n` numbers of `s` are consecutive and the run ends there, the
/// first run of `s` has length `n`.
proof fn lemma_run_len(s: Seq<u32>, n: int)
    requires
        0 < n <= s.len(),
        forall|k: int| 0 <= k < n ==> #[trigger] s[k] == s[0] + k,
        n == s.len() || s[n] != s[n - 1] + 1,
    ensures
        run_len(s) == n,
    decreases n,
{
    if n == 1 {
    } else {
        let t = s.drop_first();
        assert(s[1] == s[0] + 1);
        assert forall|k: int| 0 <= k < n - 1 implies #[trigger] t[k] == t[0] + k by {
            assert(t[k] == s[k + 1]);
            assert(t[0] == s[1]);
        }
        assert(n - 1 == t.len() || t[n - 1] != t[n - 2] + 1) by {
            if n - 1 != t.len() {
                assert(t[n - 1] == s[n]);
                assert(t[n - 2] == s[n - 1]);
            }
        }
        lemma_run_len(t, n - 1);
    }
}

/// Puts `value` into the rising list `out`, unless it is there already.
fn insert_ascending(out: &mut Vec<u32>, value: u32)
    requires
        strictly_increasing(old(out)@),
    ensures
        strictly_increasing(final(out)@),
        final(out)@.to_set() == old(out)@.to_set().insert(value),
{
    let ghost before = out@;
    let mut i: usize = out.len();
    while i > 0 && out[i - 1] > value
        invariant
            out@ == before,
            i <= out@.len(),
            forall|k: int| i <= k < out@.len() ==> out@[k] > value,
        decreases i,
    {
        i -= 1;
    }
    if i > 0 && out[i - 1] == value {
        proof {
            assert(before.contains(value));
            assert(before.to_set().insert(value) =~= before.to_set());
        }
        return ;
    }
    out.insert(i, value);
    proof {
        let after = out@;
        assert(after == before.insert(i as int, value));
        assert forall|k: int| 0 <= k < i implies before[k] < value by {
            if k < i - 1 {
                assert(before[k] < before[i - 1]);
            }
        }
        assert forall|p: int, q: int| 0 <= p < q < after.len() implies after[p] < after[q] by {
            if q < i {
                assert(after[p] == before[p] && after[q] == before[q]);
            } else if q == i {
                assert(after[p] == before[p]);
            } else if p < i {
                assert(after[p] == before[p] && after[q] == before[q - 1]);
            } else if p == i {
                assert(after[q] == before[q - 1]);
            } else {
                assert(after[p] == before[p - 1] && after[q] == before[q - 1]);
            }
        }
        assert(after.to_set() =~= before.to_set().insert(value)) by {
            assert forall|v: u32| after.to_set().contains(v) <==> before.to_set().insert(
                value,
            ).contains(v) by {
                if after.contains(v) {
                    let p = choose|p: int| 0 <= p < after.len() && after[p] == v;
                    if p < i {
                        assert(before[p] == v);
                        assert(before.contains(v));
                    } else if p > i {
                        assert(before[p - 1] == v);
                        assert(before.contains(v));
                    }
                }
                if before.contains(v) {
                    let p = choose|p: int| 0 <= p < before.len() && before[p] == v;
                    if p < i {
                        assert(after[p] == v);
                    } else {
                        assert(after[p + 1] == v);
                    }
                    assert(after.contains(v));
                }
                if v == value {
                    assert(after[i as int] == v);
                    assert(after.contains(v));
                }
            }
        }
    }
}

/// The numbers of `values` in rising order, each once.
pub fn sorted_distinct(values: &Vec<u32>) -> (out: Vec<u32>)
    ensures
        out@ == ascending(values@.to_set()),
        strictly_increasing(out@),
        out@.to_set() == values@.to_set(),
{
    let mut out: Vec<u32> = Vec::new();
    let mut i: usize = 0;
    proof {
        assert(out@.to_set() =~= values@.take(0).to_set());
    }
    while i < values.len()
        invariant
            i <= values@.len(),
            strictly_increasing(out@),
            out@.to_set() == values@.take(i as int).to_set(),
        decreases values@.len() - i,
    {
        insert_ascending(&mut out, values[i]);
        proof {
            let shorter = values@.take(i as int);
            let longer = values@.take(i + 1);
            assert(longer =~= shorter.push(values@[i as int]));
            assert(longer.to_set() =~= shorter.to_set().insert(values@[i as int])) by {
                assert forall|v: u32| longer.to_set().contains(v) <==> shorter.to_set().insert(
                    values@[i as int],
                ).contains(v) by {
                    if longer.contains(v) {
                        let p = choose|p: int| 0 <= p < longer.len() && longer[p] == v;
                        if p < i {
                            assert(shorter[p] == v);
                            assert(shorter.contains(v));
                        }
                    }
                    if shorter.contains(v) {
                        let p = choose|p: int| 0 <= p < shorter.len() && shorter[p] == v;
                        assert(longer[p] == v);
                        assert(longer.contains(v));
                    }
                    if v == values@[i as int] {
                        assert(longer[i as int] == v);
                        assert(longer.contains(v));
                    }
                }
            }
        }
        i += 1;
    }
    proof {
        assert(values@.take(i as int) =~= values@);
        lemma_ascending_of_increasing(out@);
    }
    out
}

/// Appends one record to `stream`.
fn write_record(stream: &mut BinaryStream, first: u32, last: u32)
    ensures
        final(stream).offset == old(stream).offset,
        final(stream).binary@ == old(stream).binary@ + encode_record(first, last),
{
    let ghost before = stream.binary@;
    if first == last {
        stream.write_bool(true);
        stream.write_u24(first, Endianness::Little);
    } else {
        stream.write_bool(false);
        stream.write_u24(first, Endianness::Little);
        stream.write_u24(last, Endianness::Little);
    }
    proof {
        assert(stream.binary@ =~= before + encode_record(first, last));
    }
}

/// The wire form of `sequences` under the leading byte `id`.
pub fn serialize_sequences(id: u8, sequences: &Vec<u32>) -> (result: Result<Vec<u8>, PacketError>)
    ensures
        sequences_encodable(sequences@) ==> (result matches Ok(bytes) && bytes@
            == encode_sequences(id, sequences@)),
        !sequences_encodable(sequences@) ==> result == Err::<Vec<u8>, PacketError>(
            PacketError::SerializationError,
        ),
{
    let mut k: usize = 0;
    while k < sequences.len()
        invariant
            k <= sequences@.len(),
            forall|j: int| 0 <= j < k ==> sequences@[j] < INDEX_LIMIT,
        decreases sequences@.len() - k,
    {
        if sequences[k] >= INDEX_LIMIT {
            return Err(PacketError::SerializationError);
        }
        k += 1;
    }
    let sorted = sorted_distinct(sequences);
    let ghost s = sorted@;
    let mut records = BinaryStream::new(None, None);
    let mut count: usize = 0;
    let len: usize = sorted.len();
    if len > 0 {
        let mut start: usize = 0;
        let mut i: usize = 1;
        proof {
            assert(s.skip(0) =~= s);
            assert(records.binary@ + encode_records(s) =~= encode_records(s));
        }
        while i < len
            invariant
                s == sorted@,
                len == s.len(),
                strictly_increasing(s),
                0 <= start < i <= len,
                forall|k: int| start <= k < i ==> #[trigger] s[k] == s[start as int] + (k - start),
                records.offset == 0,
                encode_records(s) == records.binary@ + encode_records(s.skip(start as int)),
                count_records(s) == count + count_records(s.skip(start as int)),
                count <= start,
            decreases len - i,
        {
            if sorted[i] != sorted[i - 1] + 1 {
                proof {
                    let tail = s.skip(start as int);
                    lemma_run_len(tail, i - start);
                    assert(tail.skip(i - start) =~= s.skip(i as int));
                    assert(encode_records(tail) == encode_record(tail[0], tail[i - start - 1])
                        + encode_records(s.skip(i as int)));
                    assert(records.binary@ + (encode_record(s[start as int], s[i - 1])
                        + encode_records(s.skip(i as int))) =~= (records.binary@ + encode_record(
                        s[start as int],
                        s[i - 1],
                    )) + encode_records(s.skip(i as int)));
                }
                write_record(&mut records, sorted[start], sorted[i - 1]);
                count += 1;
                start = i;
            }
            i += 1;
        }
        proof {
            let tail = s.skip(start as int);
            lemma_run_len(tail, len - start);
            let rest = tail.skip(len - start);
            assert(rest.len() == 0);
            assert(encode_records(rest) =~= Seq::<u8>::empty());
            assert(count_records(rest) == 0);
            assert(encode_records(tail) == encode_record(tail[0], tail[len - start - 1])
                + encode_records(rest));
            assert(encode_records(tail) =~= encode_record(tail[0], tail[len - start - 1]));
            assert(count_records(tail) == 1);
        }
        write_record(&mut records, sorted[start], sorted[len - 1]);
        count += 1;
    }
    assert(count == count_records(s));
    assert(records.binary@ == encode_records(s));
    if count > 0xFFFF {
        return Err(PacketError::SerializationError);
    }
    let mut stream = BinaryStream::new(None, None);
    stream.write_u8(id);
    stream.write_u16(count as u16, Endianness::Big);
    stream.write(records.binary);
    proof {
        assert(stream.binary@ =~= encode_sequences(id, sequences@));
    }
    Ok(stream.binary)
}

/// Reads a packet as a list of sequence numbers under the leading byte `id`.
pub fn deserialize_sequences(id: u8, buffer: &[u8]) -> (result: Result<Vec<u32>, PacketError>)
    ensures
        match decode_sequences(id, buffer@) {
            Ok(sequences) => result matches Ok(read) && read@ == sequences,
            Err(e) => result == Err::<Vec<u32>, PacketError>(e),
        },
        result matches Ok(read) ==> forall|i: int|
            0 <= i < read@.len() ==> read@[i] < INDEX_LIMIT,
{
    let mut stream = BinaryStream::new(Some(vstd::slice::slice_to_vec(buffer)), None);
    let ghost bytes = buffer@;
    let found: u8 = match stream.read_u8() {
        Ok(v) => v,
        Err(e) => {
            return Err(PacketError::BinaryStreamError(e));
        },
    };
    if found != id {
        return Err(PacketError::InvalidPacket);
    }
    let records: u16 = match stream.read_u16(Endianness::Big) {
        Ok(v) => v,
        Err(e) => {
            return Err(PacketError::BinaryStreamError(e));
        },
    };
    let mut sequences: Vec<u32> = Vec::new();
    let mut done: u16 = 0;
    proof {
        assert(sequences@ + decode_records(bytes, 3, records as nat)->Ok_0 =~= decode_records(
            bytes,
            3,
            records as nat,
        )->Ok_0);
    }
    while done < records
        invariant
            bytes == buffer@,
            bytes.len() >= 3,
            bytes[0] == id,
            records == decode_uint(bytes.subrange(1, 3), Endianness::Big),
            stream.binary@ == bytes,
            3 <= stream.offset <= bytes.len(),
            done <= records,
            forall|i: int| 0 <= i < sequences@.len() ==> sequences@[i] < INDEX_LIMIT,
            decode_records(bytes, 3, records as nat) == (match decode_records(
                bytes,
                stream.offset as int,
                (records - done) as nat,
            ) {
                Ok(rest) => Ok::<Seq<u32>, BinaryStreamError>(sequences@ + rest),
                Err(e) => Err(e),
            }),
        decreases records - done,
    {
        let ghost offset = stream.offset as int;
        let ghost before = sequences@;
        let ghost left = (records - done) as nat;
        let single: bool = match stream.read_bool() {
            Ok(v) => v,
            Err(e) => {
                return Err(PacketError::BinaryStreamError(e));
            },
        };
        let first: u32 = match stream.read_u24(Endianness::Little) {
            Ok(v) => v,
            Err(e) => {
                return Err(PacketError::BinaryStreamError(e));
            },
        };
        if single {
            sequences.push(first);
            proof {
                match decode_records(bytes, offset + 4, (left - 1) as nat) {
                    Ok(rest) => {
                        assert(before + (seq![first] + rest) =~= sequences@ + rest);
                    },
                    Err(e) => {},
                }
            }
        } else {
            let last: u32 = match stream.read_u24(Endianness::Little) {
                Ok(v) => v,
                Err(e) => {
                    return Err(PacketError::BinaryStreamError(e));
                },
            };
            if first <= last {
                let mut value: u32 = first;
                while value < last
                    invariant
                        first <= value <= last < INDEX_LIMIT,
                        sequences@ == before + range_inclusive(first, last).take(value - first),
                        forall|i: int| 0 <= i < before.len() ==> before[i] < INDEX_LIMIT,
                    decreases last - value,
                {
                    sequences.push(value);
                    proof {
                        let range = range_inclusive(first, last);
                        assert(range.take(value - first + 1) =~= range.take(value - first).push(
                            value,
                        ));
                        assert(sequences@ =~= before + range.take(value - first + 1));
                    }
                    value += 1;
                }
                sequences.push(last);
                proof {
                    let range = range_inclusive(first, last);
                    assert(range.take(last - first).push(last) =~= range);
                    assert(sequences@ =~= before + range);
                }
            }
            proof {
                let range = range_inclusive(first, last);
                assert(sequences@ =~= before + range);
                match decode_records(bytes, offset + 7, (left - 1) as nat) {
                    Ok(rest) => {
                        assert(before + (range + rest) =~= sequences@ + rest);
                    },
                    Err(e) => {},
                }
            }
        }
        done += 1;
    }
    proof {
        assert(sequences@ + Seq::<u32>::empty() =~= sequences@);
    }
    Ok(sequences)
}

impl Ack {
    pub const ID: u8 = 0xc0;

    pub fn new(sequences: Vec<u32>) -> (ack: Ack)
        ensures
            ack.sequences == sequences,
    {
        Ack { sequences }
    }

    /// The wire form of the acknowledgement: the numbers in rising order, each once,
    /// as records. A list with a number over 24 bits, or with more records than 16 bits
    /// count, is refused.
    pub fn serialize(&self) -> (result: Result<Vec<u8>, PacketError>)
        ensures
            sequences_encodable(self.sequences@) ==> (result matches Ok(bytes) && bytes@
                == encode_sequences(Ack::ID, self.sequences@)),
            !sequences_encodable(self.sequences@) ==> result == Err::<Vec<u8>, PacketError>(
                PacketError::SerializationError,
            ),
    {
        serialize_sequences(Ack::ID, &self.sequences)
    }

    /// Reads a packet as an acknowledgement; every number of a run is listed.
    pub fn deserialize(buffer: &[u8]) -> (result: Result<Ack, PacketError>)
        ensures
            match decode_sequences(Ack::ID, buffer@) {
                Ok(sequences) => result matches Ok(ack) && ack.sequences@ == sequences,
                Err(e) => result matches Err(found) && found == e,
            },
    {
        match deserialize_sequences(Ack::ID, buffer) {
            Ok(sequences) => Ok(Ack { sequences }),
            Err(e) => Err(e),
        }
    }
}

impl Nack {
    pub const ID: u8 = 0xa0;

    pub fn new(sequences: Vec<u32>) -> (nack: Nack)
        ensures
            nack.sequences == sequences,
    {
        Nack { sequences }
    }

    /// The wire form of the negative acknowledgement: the numbers in rising order, each
    /// once, as records. A list with a number over 24 bits, or with more records than
    /// 16 bits count, is refused.
    pub fn serialize(&self) -> (result: Result<Vec<u8>, PacketError>)
        ensures
            sequences_encodable(self.sequences@) ==> (result matches Ok(bytes) && bytes@
                == encode_sequences(Nack::ID, self.sequences@)),
            !sequences_encodable(self.sequences@) ==> result == Err::<Vec<u8>, PacketError>(
                PacketError::SerializationError,
            ),
    {
        serialize_sequences(Nack::ID, &self.sequences)
    }

    /// Reads a packet as a negative acknowledgement; every number of a run is listed.
    pub fn deserialize(buffer: &[u8]) -> (result: Result<Nack, PacketError>)
        ensures
            match decode_sequences(Nack::ID, buffer@) {
                Ok(sequences) => result matches Ok(nack) && nack.sequences@ == sequences,
                Err(e) => result matches Err(found) && found == e,
            },
    {
        match deserialize_sequences(Nack::ID, buffer) {
            Ok(sequences) => Ok(Nack { sequences }),
            Err(e) => Err(e),
        }
    }
}

/// The first run of a list that is not empty has at least one number and no more
/// than the list, and each of its numbers follows the one before by exactly one.
pub proof fn lemma_run_is_consecutive(s: Seq<u32>)
    requires
        s.len() > 0,
    ensures
        1 <= run_len(s) <= s.len(),
        forall|k: int| 0 <= k < run_len(s) ==> #[trigger] s[k] == s[0] + k,
    decreases s.len(),
{
    if s.len() >= 2 && s[1] == s[0] + 1 {
        let t = s.drop_first();
        lemma_run_is_consecutive(t);
        assert forall|k: int| 0 <= k < run_len(s) implies #[trigger] s[k] == s[0] + k by {
            if k > 0 {
                assert(t[k - 1] == s[k]);
                assert(t[0] == s[1]);
            }
        }
    }
}

/// What is left of a rising list after its first numbers is a rising list.
pub proof fn lemma_skip_increasing(s: Seq<u32>, n: int)
    requires
        strictly_increasing(s),
        0 <= n <= s.len(),
    ensures
        strictly_increasing(s.skip(n)),
{
    let t = s.skip(n);
    assert forall|i: int, j: int| 0 <= i < j < t.len() implies t[i] < t[j] by {
        assert(t[i] == s[i + n] && t[j] == s[j + n]);
    }
}

/// The records of a rising list of 24-bit numbers read back as the list.
pub proof fn lemma_records_round_trip(prefix: Seq<u8>, s: Seq<u32>)
    requires
        strictly_increasing(s),
        forall|i: int| 0 <= i < s.len() ==> s[i] < INDEX_LIMIT,
    ensures
        decode_records(prefix + encode_records(s), prefix.len() as int, count_records(s)) == Ok::<
            Seq<u32>,
            BinaryStreamError,
        >(s),
    decreases s.len(),
{
    let bytes = prefix + encode_records(s);
    let offset = prefix.len() as int;
    if s.len() == 0 {
        assert(s =~= Seq::<u32>::empty());
    } else {
        lemma_run_is_consecutive(s);
        lemma_radix_values();
        let n = run_len(s) as int;
        let first = s[0];
        let last = s[n - 1];
        let record = encode_record(first, last);
        let rest = s.skip(n);
        lemma_skip_increasing(s, n);
        assert forall|i: int| 0 <= i < rest.len() implies rest[i] < INDEX_LIMIT by {
            assert(rest[i] == s[i + n]);
        }
        lemma_records_round_trip(prefix + record, rest);
        assert(bytes =~= (prefix + record) + encode_records(rest));
        lemma_uint_round_trip(first as nat, 3, Endianness::Little);
        lemma_uint_round_trip(last as nat, 3, Endianness::Little);
        let first_bytes = encode_uint(first as nat, 3, Endianness::Little);
        let last_bytes = encode_uint(last as nat, 3, Endianness::Little);
        assert(bytes.subrange(offset + 1, offset + 4) =~= first_bytes);
        if first == last {
            assert(n == 1) by {
                if n > 1 {
                    assert(s[0] < s[n - 1]);
                }
            }
            assert(record.len() == 4);
            assert(bytes[offset] == 1u8);
            assert(seq![first] + rest =~= s);
        } else {
            assert(record.len() == 7);
            assert(bytes[offset] == 0u8);
            assert(bytes.subrange(offset + 4, offset + 7) =~= last_bytes);
            assert(last == first + (n - 1));
            let listed = range_inclusive(first, last);
            assert(listed =~= s.take(n)) by {
                assert(listed.len() == n);
                assert forall|k: int| 0 <= k < n implies listed[k] == s.take(n)[k] by {
                    assert(s[k] == s[0] + k);
                }
            }
            assert(listed + rest =~= s);
        }
    }
}

/// Putting a number into a rising list, as a function.
pub open spec fn with_number(s: Seq<u32>, value: u32) -> Seq<u32>
    decreases s.len(),
{
    if s.len() == 0 {
        seq![value]
    } else if s.last() < value {
        s.push(value)
    } else if s.last() == value {
        s
    } else {
        with_number(s.drop_last(), value).push(s.last())
    }
}

/// Putting a number into a rising list gives a rising list with that number more.
pub proof fn lemma_with_number(s: Seq<u32>, value: u32)
    requires
        strictly_increasing(s),
    ensures
        strictly_increasing(with_number(s, value)),
        with_number(s, value).to_set() == s.to_set().insert(value),
        with_number(s, value).len() > 0,
        with_number(s, value).last() == (if s.len() > 0 && s.last() > value {
            s.last()
        } else {
            value
        }),
    decreases s.len(),
{
    let r = with_number(s, value);
    if s.len() == 0 {
        assert(r.to_set() =~= s.to_set().insert(value)) by {
            assert forall|v: u32| r.to_set().contains(v) <==> s.to_set().insert(value).contains(
                v,
            ) by {
                if r.contains(v) {
                    let p = choose|p: int| 0 <= p < r.len() && r[p] == v;
                }
                if s.contains(v) {
                    let p = choose|p: int| 0 <= p < s.len() && s[p] == v;
                }
                if v == value {
                    assert(r[0] == v);
                    assert(r.contains(v));
                }
            }
        }
    } else if s.last() < value {
        assert forall|i: int, j: int| 0 <= i < j < r.len() implies r[i] < r[j] by {
            if j == s.len() {
                if i < s.len() - 1 {
                    assert(s[i] < s[s.len() - 1]);
                }
            }
        }
        lemma_to_set_push(s, value);
    } else if s.last() == value {
        assert(s.contains(value)) by {
            assert(s[s.len() - 1] == value);
        }
        assert(s.to_set().insert(value) =~= s.to_set());
    } else {
        let shorter = s.drop_last();
        assert(strictly_increasing(shorter)) by {
            assert forall|i: int, j: int| 0 <= i < j < shorter.len() implies shorter[i]
                < shorter[j] by {
                assert(shorter[i] == s[i] && shorter[j] == s[j]);
            }
        }
        lemma_with_number(shorter, value);
        let inner = with_number(shorter, value);
        assert(inner.last() < s.last()) by {
            if shorter.len() > 0 && shorter.last() > value {
                assert(shorter.last() == s[s.len() - 2]);
                assert(s[s.len() - 2] < s[s.len() - 1]);
            }
        }
        assert forall|i: int, j: int| 0 <= i < j < r.len() implies r[i] < r[j] by {
            if j == inner.len() {
                if i < inner.len() - 1 {
                    assert(inner[i] < inner[inner.len() - 1]);
                }
            } else {
                assert(r[i] == inner[i] && r[j] == inner[j]);
            }
        }
        lemma_to_set_push(inner, s.last());
        lemma_to_set_push(shorter, s.last());
        assert(shorter.push(s.last()) =~= s);
        assert(r.to_set() =~= s.to_set().insert(value));
    }
}

/// Of a list with one number more, the set has that number more.
pub proof fn lemma_to_set_push(s: Seq<u32>, value: u32)
    ensures
        s.push(value).to_set() == s.to_set().insert(value),
{
    let longer = s.push(value);
    assert(longer.to_set() =~= s.to_set().insert(value)) by {
        assert forall|v: u32| longer.to_set().contains(v) <==> s.to_set().insert(value).contains(
            v,
        ) by {
            if longer.contains(v) {
                let p = choose|p: int| 0 <= p < longer.len() && longer[p] == v;
                if p < s.len() {
                    assert(s[p] == v);
                    assert(s.contains(v));
                }
            }
            if s.contains(v) {
                let p = choose|p: int| 0 <= p < s.len() && s[p] == v;
                assert(longer[p] == v);
                assert(longer.contains(v));
            }
            if v == value {
                assert(longer[s.len() as int] == v);
                assert(longer.contains(v));
            }
        }
    }
}

/// The numbers of every list can be put in rising order: the rising order of the set
/// of a list is a rising list with the same numbers.
pub proof fn lemma_ascending_exists(s: Seq<u32>)
    ensures
        strictly_increasing(ascending(s.to_set())),
        ascending(s.to_set()).to_set() == s.to_set(),
    decreases s.len(),
{
    if s.len() == 0 {
        let r = Seq::<u32>::empty();
        assert(strictly_increasing(r) && r.to_set() == s.to_set()) by {
            assert(s =~= r);
        }
    } else {
        let shorter = s.drop_last();
        lemma_ascending_exists(shorter);
        let sorted = ascending(shorter.to_set());
        lemma_with_number(sorted, s.last());
        let r = with_number(sorted, s.last());
        lemma_to_set_push(shorter, s.last());
        assert(shorter.push(s.last()) =~= s);
        assert(strictly_increasing(r) && r.to_set() == s.to_set());
    }
}

/// A list of sequence numbers that has a wire form reads back from it in rising
/// order, each number once.
pub proof fn lemma_sequences_round_trip(id: u8, sequences: Seq<u32>)
    requires
        sequences_encodable(sequences),
    ensures
        decode_sequences(id, encode_sequences(id, sequences)) == Ok::<Seq<u32>, PacketError>(
            ascending(sequences.to_set()),
        ),
        strictly_increasing(ascending(sequences.to_set())),
        ascending(sequences.to_set()).to_set() == sequences.to_set(),
{
    lemma_ascending_exists(sequences);
    let sorted = ascending(sequences.to_set());
    assert forall|i: int| 0 <= i < sorted.len() implies sorted[i] < INDEX_LIMIT by {
        assert(sorted.contains(sorted[i]));
        assert(sorted.to_set().contains(sorted[i]));
        assert(sequences.contains(sorted[i]));
        let p = choose|p: int| 0 <= p < sequences.len() && sequences[p] == sorted[i];
    }
    lemma_radix_values();
    let count = count_records(sorted);
    lemma_uint_round_trip(count, 2, Endianness::Big);
    let head = seq![id] + encode_uint(count, 2, Endianness::Big);
    let bytes = encode_sequences(id, sequences);
    assert(bytes =~= head + encode_records(sorted));
    assert(bytes.subrange(1, 3) =~= encode_uint(count, 2, Endianness::Big));
    lemma_records_round_trip(head, sorted);
}

impl Packet for Ack {
    const ID: u16 = 0xc0;

    const MAGIC: [u8; 16] = MAGIC;

    open spec fn wire_form(&self) -> Option<Seq<u8>> {
        if sequences_encodable(self.sequences@) {
            Some(encode_sequences(Ack::ID, self.sequences@))
        } else {
            None
        }
    }

    open spec fn reads_as(buffer: Seq<u8>, result: Result<Ack, PacketError>) -> bool {
        match decode_sequences(Ack::ID, buffer) {
            Ok(sequences) => result matches Ok(ack) && ack.sequences@ == sequences,
            Err(e) => result matches Err(found) && found == e,
        }
    }

    fn serialize(&self) -> (result: Result<Vec<u8>, PacketError>) {
        Ack::serialize(self)
    }

    fn deserialize(buffer: &[u8]) -> (result: Result<Ack, PacketError>) {
        Ack::deserialize(buffer)
    }
}

impl Packet for Nack {
    const ID: u16 = 0xa0;

    const MAGIC: [u8; 16] = MAGIC;

    open spec fn wire_form(&self) -> Option<Seq<u8>> {
        if sequences_encodable(self.sequences@) {
            Some(encode_sequences(Nack::ID, self.sequences@))
        } else {
            None
        }
    }

    open spec fn reads_as(buffer: Seq<u8>, result: Result<Nack, PacketError>) -> bool {
        match decode_sequences(Nack::ID, buffer) {
            Ok(sequences) => result matches Ok(nack) && nack.sequences@ == sequences,
            Err(e) => result matches Err(found) && found == e,
        }
    }

    fn serialize(&self) -> (result: Result<Vec<u8>, PacketError>) {
        Nack::serialize(self)
    }

    fn deserialize(buffer: &[u8]) -> (result: Result<Nack, PacketError>) {
        Nack::deserialize(buffer)
    }
}

} // verus!
