//! The format of the logs: how a payload is framed as a record, how the
//! records of a segment are read back, and how a command is written as a
//! payload.
//!
//! A record is the length of its payload, the CRC-32 of the payload, both as
//! 32-bit numbers in little-endian order, and the payload. A segment that
//! was closed in good order ends in a record of length zero.

use vstd::prelude::*;
use vstd::bytes::{
    lemma_auto_spec_u32_to_from_le_bytes, spec_u32_from_le_bytes, spec_u32_to_le_bytes,
    u32_from_le_bytes, u32_to_le_bytes,
};
use vstd::slice::{slice_subrange, slice_to_vec};
use crate::command::{CommandData, CommandView};
use crate::error::KvsError;

verus! {

/// The number of bytes before the payload of a record.
pub const HEADER_LEN: usize = 8;

/// One step of the CRC-32 register: one bit is shifted out, and the
/// polynomial is added where that bit was set.
pub open spec fn crc_shift(crc: u32) -> u32 {
    if crc & 1 == 1 {
        (crc >> 1) ^ 0xEDB8_8320u32
    } else {
        crc >> 1
    }
}

/// The CRC-32 register after one more byte: the byte is added to the low
/// bits, and the register is stepped once for each of its eight bits.
pub open spec fn crc_byte(crc: u32, byte: u8) -> u32 {
    let bit0 = crc_shift(crc ^ (byte as u32));
    let bit1 = crc_shift(bit0);
    let bit2 = crc_shift(bit1);
    let bit3 = crc_shift(bit2);
    let bit4 = crc_shift(bit3);
    let bit5 = crc_shift(bit4);
    let bit6 = crc_shift(bit5);
    crc_shift(bit6)
}

/// The CRC-32 register after the bytes.
pub open spec fn crc_register(crc: u32, bytes: Seq<u8>) -> u32
    decreases bytes.len(),
{
    if bytes.len() == 0 {
        crc
    } else {
        crc_byte(crc_register(crc, bytes.drop_last()), bytes.last())
    }
}

/// The CRC-32 of the bytes, as in Ethernet and zip: the register starts
/// with all bits set, and the result is its complement.
pub open spec fn crc32_of(bytes: Seq<u8>) -> u32 {
    crc_register(0xFFFF_FFFFu32, bytes) ^ 0xFFFF_FFFFu32
}

fn shift(crc: u32) -> (r: u32)
    ensures
        r == crc_shift(crc),
{
    if crc & 1 == 1 {
        (crc >> 1) ^ 0xEDB8_8320u32
    } else {
        crc >> 1
    }
}

/// Computes the CRC-32 of the bytes.
pub fn crc32(bytes: &[u8]) -> (r: u32)
    ensures
        r == crc32_of(bytes@),
{
    let mut crc: u32 = 0xFFFF_FFFFu32;
    let mut i: usize = 0;
    assert(bytes@.take(0) =~= Seq::<u8>::empty());
    while i < bytes.len()
        invariant
            i <= bytes.len(),
            crc == crc_register(0xFFFF_FFFFu32, bytes@.take(i as int)),
        decreases bytes.len() - i,
    {
        proof {
            assert(bytes@.take(i + 1).drop_last() =~= bytes@.take(i as int));
            assert(bytes@.take(i + 1).last() == bytes@[i as int]);
        }
        let bit0 = shift(crc ^ (bytes[i] as u32));
        let bit1 = shift(bit0);
        let bit2 = shift(bit1);
        let bit3 = shift(bit2);
        let bit4 = shift(bit3);
        let bit5 = shift(bit4);
        let bit6 = shift(bit5);
        crc = shift(bit6);
        i += 1;
    }
    assert(bytes@.take(i as int) =~= bytes@);
    crc ^ 0xFFFF_FFFFu32
}

/// The record that carries a payload.
pub open spec fn framed(payload: Seq<u8>) -> Seq<u8> {
    spec_u32_to_le_bytes(payload.len() as u32) + spec_u32_to_le_bytes(crc32_of(payload)) + payload
}

/// The record that ends a segment which was closed in good order: a length
/// of zero and a checksum of zero.
pub open spec fn terminator() -> Seq<u8> {
    spec_u32_to_le_bytes(0) + spec_u32_to_le_bytes(0)
}

/// Whether a payload can be framed: it is not empty, and its length fits
/// the length field.
pub open spec fn can_frame(payload: Seq<u8>) -> bool {
    0 < payload.len() <= u32::MAX
}

/// What stands at a place of a segment.
pub enum Parsed {
    /// A record with this payload; the next record starts at `next`.
    Record { payload: Seq<u8>, next: int },
    /// The record that ends the segment.
    End,
    /// Fewer bytes than the record needs: the segment broke off here.
    Truncated,
    /// A record whose checksum does not fit its payload.
    Corrupt,
}

/// What stands at place `at` of a segment.
pub open spec fn record_at(bytes: Seq<u8>, at: int) -> Parsed {
    if bytes.len() - at < HEADER_LEN {
        Parsed::Truncated
    } else {
        let len = spec_u32_from_le_bytes(bytes.subrange(at, at + 4));
        let crc = spec_u32_from_le_bytes(bytes.subrange(at + 4, at + 8));
        if len == 0 {
            if crc == 0 {
                Parsed::End
            } else {
                Parsed::Corrupt
            }
        } else if bytes.len() - at - HEADER_LEN < len {
            Parsed::Truncated
        } else {
            let payload = bytes.subrange(at + 8, at + 8 + len);
            if crc32_of(payload) == crc {
                Parsed::Record { payload, next: at + 8 + len }
            } else {
                Parsed::Corrupt
            }
        }
    }
}

/// What reading a segment gives: the payloads of its records in order, and
/// whether the segment was closed in good order; or nothing, where a
/// record is corrupt.
pub enum Replay {
    Records { payloads: Seq<Seq<u8>>, clean: bool },
    Corrupt,
}

impl Replay {
    /// The same outcome behind one more payload.
    pub open spec fn after(self, payload: Seq<u8>) -> Replay {
        match self {
            Replay::Records { payloads, clean } => Replay::Records {
                payloads: seq![payload] + payloads,
                clean,
            },
            Replay::Corrupt => Replay::Corrupt,
        }
    }

    /// The same outcome behind more payloads.
    pub open spec fn after_all(self, before: Seq<Seq<u8>>) -> Replay {
        match self {
            Replay::Records { payloads, clean } => Replay::Records {
                payloads: before + payloads,
                clean,
            },
            Replay::Corrupt => Replay::Corrupt,
        }
    }
}

/// What reading a segment from place `at` on gives. The records are read
/// one after the other. The record that ends the segment ends the reading
/// in good order. Where the segment breaks off, within a record or between
/// two, the reading ends and what broke off is dropped. A corrupt record
/// spoils the whole reading.
pub open spec fn replay_from(bytes: Seq<u8>, at: int) -> Replay
    decreases bytes.len() - at,
{
    match record_at(bytes, at) {
        Parsed::Record { payload, next } => {
            if at < next <= bytes.len() {
                replay_from(bytes, next).after(payload)
            } else {
                Replay::Corrupt
            }
        },
        Parsed::End => Replay::Records { payloads: Seq::empty(), clean: true },
        Parsed::Truncated => Replay::Records { payloads: Seq::empty(), clean: false },
        Parsed::Corrupt => Replay::Corrupt,
    }
}

/// The records that carry the payloads, one after the other.
pub open spec fn segment_of(payloads: Seq<Seq<u8>>) -> Seq<u8>
    decreases payloads.len(),
{
    if payloads.len() == 0 {
        Seq::empty()
    } else {
        framed(payloads.first()) + segment_of(payloads.drop_first())
    }
}

/// A framed payload is read back as it was, wherever it stands.
pub proof fn lemma_record_round_trip(before: Seq<u8>, payload: Seq<u8>, after: Seq<u8>)
    requires
        can_frame(payload),
    ensures
        record_at(before + framed(payload) + after, before.len() as int) == (Parsed::Record {
            payload,
            next: before.len() + HEADER_LEN + payload.len(),
        }),
        framed(payload).len() == HEADER_LEN + payload.len(),
{
    lemma_auto_spec_u32_to_from_le_bytes();
    let bytes = before + framed(payload) + after;
    let at = before.len() as int;
    let len = payload.len() as u32;
    assert(bytes.subrange(at, at + 4) =~= spec_u32_to_le_bytes(len));
    assert(bytes.subrange(at + 4, at + 8) =~= spec_u32_to_le_bytes(crc32_of(payload)));
    assert(bytes.subrange(at + 8, at + 8 + len) =~= payload);
}

/// The record that ends a segment is read as such, wherever it stands.
pub proof fn lemma_terminator_ends(before: Seq<u8>, after: Seq<u8>)
    ensures
        record_at(before + terminator() + after, before.len() as int) == Parsed::End,
        terminator().len() == HEADER_LEN,
{
    lemma_auto_spec_u32_to_from_le_bytes();
    let bytes = before + terminator() + after;
    let at = before.len() as int;
    assert(bytes.subrange(at, at + 4) =~= spec_u32_to_le_bytes(0));
    assert(bytes.subrange(at + 4, at + 8) =~= spec_u32_to_le_bytes(0));
}

/// A record that broke off is read as such: a proper prefix of a framed
/// payload at the end of a segment.
pub proof fn lemma_broken_record(before: Seq<u8>, payload: Seq<u8>, kept: int)
    requires
        can_frame(payload),
        0 <= kept < HEADER_LEN + payload.len(),
    ensures
        record_at(before + framed(payload).take(kept), before.len() as int) == Parsed::Truncated,
{
    lemma_auto_spec_u32_to_from_le_bytes();
    let tail = framed(payload).take(kept);
    let bytes = before + tail;
    let at = before.len() as int;
    if kept >= HEADER_LEN {
        let len = payload.len() as u32;
        assert(bytes.subrange(at, at + 4) =~= spec_u32_to_le_bytes(len));
        assert(bytes.subrange(at + 4, at + 8) =~= spec_u32_to_le_bytes(crc32_of(payload)));
    }
}

/// What was logged is read back: a segment made of framed payloads gives
/// these payloads, whatever stands before the place where the reading
/// starts. The reading ends in good order where the segment ends in the
/// closing record, and not in good order where it just ends or ends in a
/// record that broke off.
pub proof fn lemma_segment_replay(before: Seq<u8>, payloads: Seq<Seq<u8>>, tail: Seq<u8>)
    requires
        forall|i: int| 0 <= i < payloads.len() ==> can_frame(#[trigger] payloads[i]),
        tail == terminator() || exists|payload: Seq<u8>, kept: int|
            can_frame(payload) && 0 <= kept < HEADER_LEN + payload.len() && tail == framed(
                payload,
            ).take(kept),
    ensures
        replay_from(before + segment_of(payloads) + tail, before.len() as int) == (Replay::Records {
            payloads,
            clean: tail == terminator(),
        }),
    decreases payloads.len(),
{
    let bytes = before + segment_of(payloads) + tail;
    let at = before.len() as int;
    lemma_terminator_ends(Seq::empty(), Seq::empty());
    if payloads.len() == 0 {
        assert(payloads =~= Seq::<Seq<u8>>::empty());
        assert(bytes =~= before + tail);
        if tail == terminator() {
            lemma_terminator_ends(before, Seq::empty());
            assert(before + terminator() + Seq::<u8>::empty() =~= bytes);
            assert(record_at(bytes, at) == Parsed::End);
        } else {
            let (payload, kept) = choose|payload: Seq<u8>, kept: int|
                can_frame(payload) && 0 <= kept < HEADER_LEN + payload.len() && tail == framed(
                    payload,
                ).take(kept);
            lemma_broken_record(before, payload, kept);
            assert(record_at(bytes, at) == Parsed::Truncated);
        }
    } else {
        let first = payloads.first();
        let rest = payloads.drop_first();
        let after = segment_of(rest) + tail;
        assert(bytes =~= before + framed(first) + after);
        assert(can_frame(payloads[0]));
        lemma_record_round_trip(before, first, after);
        let next = before + framed(first);
        assert forall|i: int| 0 <= i < rest.len() implies can_frame(#[trigger] rest[i]) by {
            assert(rest[i] == payloads[i + 1]);
        }
        lemma_segment_replay(next, rest, tail);
        assert(next + segment_of(rest) + tail =~= bytes);
        assert(seq![first] + rest =~= payloads);
        assert(record_at(bytes, at) == (Parsed::Record {
            payload: first,
            next: next.len() as int,
        }));
        assert(replay_from(bytes, next.len() as int) == (Replay::Records {
            payloads: rest,
            clean: tail == terminator(),
        }));
    }
}

/// Frames a payload as a record. A payload that is empty, or longer than
/// the length field can say, is refused.
pub fn frame(payload: &[u8]) -> (r: Result<Vec<u8>, KvsError>)
    ensures
        match r {
            Ok(record) => can_frame(payload@) && record@ == framed(payload@),
            Err(e) => e == KvsError::SerializationError && !can_frame(payload@),
        },
{
    if payload.len() == 0 || payload.len() > u32::MAX as usize {
        return Err(KvsError::SerializationError);
    }
    let mut record = u32_to_le_bytes(payload.len() as u32);
    let mut check = u32_to_le_bytes(crc32(payload));
    record.append(&mut check);
    let mut body = slice_to_vec(payload);
    record.append(&mut body);
    Ok(record)
}

/// The record that ends a segment.
pub fn closing_record() -> (r: Vec<u8>)
    ensures
        r@ == terminator(),
{
    let mut record = u32_to_le_bytes(0);
    let mut check = u32_to_le_bytes(0);
    record.append(&mut check);
    record
}

/// What was read at a place of a segment.
#[derive(Debug, PartialEq, Eq)]
pub enum Record {
    /// A record with this payload; the next record starts at `next`.
    Payload { payload: Vec<u8>, next: usize },
    /// The record that ends the segment.
    End,
    /// Fewer bytes than the record needs: the segment broke off here.
    Truncated,
}

/// Reads the record at place `at` of a segment. A record whose checksum
/// does not fit its payload is reported as corruption.
pub fn read_record(bytes: &[u8], at: usize) -> (r: Result<Record, KvsError>)
    ensures
        match r {
            Ok(Record::Payload { payload, next }) => record_at(bytes@, at as int)
                == (Parsed::Record { payload: payload@, next: next as int }) && at < next
                <= bytes.len(),
            Ok(Record::End) => record_at(bytes@, at as int) == Parsed::End,
            Ok(Record::Truncated) => record_at(bytes@, at as int) == Parsed::Truncated,
            Err(e) => e == KvsError::Corruption && record_at(bytes@, at as int) == Parsed::Corrupt,
        },
{
    if at > bytes.len() {
        return Ok(Record::Truncated);
    }
    let left = bytes.len() - at;
    if left < HEADER_LEN {
        return Ok(Record::Truncated);
    }
    let len = u32_from_le_bytes(slice_subrange(bytes, at, at + 4));
    let crc = u32_from_le_bytes(slice_subrange(bytes, at + 4, at + 8));
    if len == 0 {
        if crc == 0 {
            return Ok(Record::End);
        }
        return Err(KvsError::Corruption);
    }
    if left - HEADER_LEN < len as usize {
        return Ok(Record::Truncated);
    }
    let start = at + HEADER_LEN;
    let next = start + len as usize;
    let payload = slice_subrange(bytes, start, next);
    if crc32(payload) == crc {
        Ok(Record::Payload { payload: slice_to_vec(payload), next })
    } else {
        Err(KvsError::Corruption)
    }
}

/// The payloads as a mathematical value.
pub open spec fn payload_views(payloads: Seq<Vec<u8>>) -> Seq<Seq<u8>> {
    payloads.map_values(|payload: Vec<u8>| payload@)
}

/// Reads a segment: the payloads of its records in order, and whether the
/// segment was closed in good order. What broke off at the end is dropped.
/// A corrupt record is reported as corruption.
pub fn replay(bytes: &[u8]) -> (r: Result<(Vec<Vec<u8>>, bool), KvsError>)
    ensures
        match r {
            Ok((payloads, clean)) => replay_from(bytes@, 0) == (Replay::Records {
                payloads: payload_views(payloads@),
                clean,
            }),
            Err(e) => e == KvsError::Corruption && replay_from(bytes@, 0) == Replay::Corrupt,
        },
{
    let mut payloads: Vec<Vec<u8>> = Vec::new();
    let mut at: usize = 0;
    assert(payload_views(payloads@) =~= Seq::empty());
    loop
        invariant
            at <= bytes.len(),
            replay_from(bytes@, 0) == replay_from(bytes@, at as int).after_all(
                payload_views(payloads@),
            ),
        decreases bytes.len() - at,
    {
        let ghost read = payload_views(payloads@);
        match read_record(bytes, at) {
            Ok(Record::Payload { payload, next }) => {
                proof {
                    let rest = replay_from(bytes@, next as int);
                    assert(replay_from(bytes@, at as int) == rest.after(payload@));
                    assert(payload_views(payloads@.push(payload)) =~= read.push(payload@));
                    match rest {
                        Replay::Records { payloads: later, clean } => {
                            assert(read + (seq![payload@] + later) =~= read.push(payload@) + later);
                        },
                        Replay::Corrupt => {},
                    }
                }
                payloads.push(payload);
                at = next;
            },
            Ok(Record::End) => {
                assert(read + Seq::<Seq<u8>>::empty() =~= read);
                return Ok((payloads, true));
            },
            Ok(Record::Truncated) => {
                assert(read + Seq::<Seq<u8>>::empty() =~= read);
                return Ok((payloads, false));
            },
            Err(e) => {
                return Err(e);
            },
        }
    }
}

/// The segments that are to be deleted, given the gens of the segments at
/// hand, oldest first: while there are no more than `threshold` of them
/// none, else the older half.
pub open spec fn segments_to_drop(gens: Seq<i64>, threshold: usize) -> Seq<i64> {
    if gens.len() > threshold {
        gens.take(gens.len() as int / 2)
    } else {
        Seq::empty()
    }
}

/// Chooses the segments of a log that are to be deleted, given the gens of
/// its segments in ascending order and the number of segments to keep at
/// most.
pub fn retire_segments(gens: &Vec<i64>, threshold: usize) -> (r: Vec<i64>)
    ensures
        r@ == segments_to_drop(gens@, threshold),
{
    let mut old: Vec<i64> = Vec::new();
    if gens.len() > threshold {
        let half = gens.len() / 2;
        let mut i: usize = 0;
        assert(old@ =~= gens@.take(0));
        while i < half
            invariant
                i <= half <= gens.len(),
                old@ == gens@.take(i as int),
            decreases half - i,
        {
            old.push(gens[i]);
            assert(gens@.take(i + 1) =~= gens@.take(i as int).push(gens@[i as int]));
            i += 1;
        }
    }
    old
}

/// The tag of a command that writes a value.
pub const TAG_PUT: u8 = 0;

/// The tag of a command that removes a key.
pub const TAG_REMOVE: u8 = 1;

/// A command as a payload: its tag, the length of its key as a 32-bit
/// number in little-endian order, the key, and for a write the value.
pub open spec fn encoded(cmd: CommandView) -> Seq<u8> {
    match cmd {
        CommandView::Put { key, value } => seq![TAG_PUT] + spec_u32_to_le_bytes(key.len() as u32)
            + key + value,
        CommandView::Remove { key } => seq![TAG_REMOVE] + spec_u32_to_le_bytes(key.len() as u32)
            + key,
    }
}

/// Whether a command can be written as a payload: its key is not longer
/// than the length field can say.
pub open spec fn can_encode(cmd: CommandView) -> bool {
    cmd.key().len() <= u32::MAX
}

/// The command that a payload holds, if it holds one: the tag is that of a
/// write or a removal, the key has the length that the payload says, and
/// after the key of a removal nothing follows.
pub open spec fn decoded(payload: Seq<u8>) -> Option<CommandView> {
    if payload.len() < 5 {
        None
    } else {
        let len = spec_u32_from_le_bytes(payload.subrange(1, 5)) as int;
        if payload.len() - 5 < len {
            None
        } else if payload[0] == TAG_PUT {
            Some(
                CommandView::Put {
                    key: payload.subrange(5, 5 + len),
                    value: payload.subrange(5 + len, payload.len() as int),
                },
            )
        } else if payload[0] == TAG_REMOVE && payload.len() == 5 + len {
            Some(CommandView::Remove { key: payload.subrange(5, 5 + len) })
        } else {
            None
        }
    }
}

/// A command goes to a payload and comes back as it was.
pub proof fn lemma_command_round_trip(cmd: CommandView)
    requires
        can_encode(cmd),
    ensures
        decoded(encoded(cmd)) == Some(cmd),
{
    lemma_auto_spec_u32_to_from_le_bytes();
    let payload = encoded(cmd);
    let key = cmd.key();
    assert(payload.subrange(1, 5) =~= spec_u32_to_le_bytes(key.len() as u32));
    assert(payload.subrange(5, 5 + key.len() as int) =~= key);
    match cmd {
        CommandView::Put { key, value } => {
            assert(payload.subrange(5 + key.len() as int, payload.len() as int) =~= value);
        },
        CommandView::Remove { key } => {},
    }
}

/// A payload that holds a command is the payload of that command, byte for
/// byte.
pub proof fn lemma_payload_round_trip(payload: Seq<u8>)
    requires
        decoded(payload) is Some,
    ensures
        encoded(decoded(payload).unwrap()) == payload,
        can_encode(decoded(payload).unwrap()),
{
    lemma_auto_spec_u32_to_from_le_bytes();
    let len = spec_u32_from_le_bytes(payload.subrange(1, 5));
    assert(spec_u32_to_le_bytes(len) == payload.subrange(1, 5));
    assert(encoded(decoded(payload).unwrap()) =~= payload);
}

/// A command that is logged is read back: framed as a record and read from
/// a segment, wherever the record stands, its payload gives the command
/// again, and the record is what the command gives when framed anew.
pub proof fn lemma_command_record_round_trip(before: Seq<u8>, cmd: CommandView, after: Seq<u8>)
    requires
        can_encode(cmd),
        can_frame(encoded(cmd)),
    ensures
        record_at(before + framed(encoded(cmd)) + after, before.len() as int) matches Parsed::Record {
            payload,
            next,
        } && decoded(payload) == Some(cmd) && framed(encoded(decoded(payload).unwrap())) == framed(
            encoded(cmd),
        ),
{
    lemma_record_round_trip(before, encoded(cmd), after);
    lemma_command_round_trip(cmd);
}

/// Writes a command as a payload. A command whose key is longer than the
/// length field can say is refused.
pub fn encode_command(cmd: &CommandData) -> (r: Result<Vec<u8>, KvsError>)
    ensures
        match r {
            Ok(payload) => can_encode(cmd@) && payload@ == encoded(cmd@),
            Err(e) => e == KvsError::SerializationError && !can_encode(cmd@),
        },
{
    let key = cmd.get_key();
    if key.len() > u32::MAX as usize {
        return Err(KvsError::SerializationError);
    }
    let mut payload: Vec<u8> = Vec::new();
    match cmd {
        CommandData::Put { .. } => payload.push(TAG_PUT),
        CommandData::Remove { .. } => payload.push(TAG_REMOVE),
    }
    let mut len = u32_to_le_bytes(key.len() as u32);
    payload.append(&mut len);
    let mut key_bytes = key.clone();
    payload.append(&mut key_bytes);
    match cmd.get_value() {
        Some(value) => {
            let mut value_bytes = value.clone();
            payload.append(&mut value_bytes);
        },
        None => {},
    }
    assert(payload@ =~= encoded(cmd@));
    Ok(payload)
}

/// Reads the command that a payload holds.
pub fn decode_command(payload: &[u8]) -> (r: Result<CommandData, KvsError>)
    ensures
        match r {
            Ok(cmd) => decoded(payload@) == Some(cmd@),
            Err(e) => e == KvsError::SerializationError && decoded(payload@) is None,
        },
{
    if payload.len() < 5 {
        return Err(KvsError::SerializationError);
    }
    let len = u32_from_le_bytes(slice_subrange(payload, 1, 5)) as usize;
    if payload.len() - 5 < len {
        return Err(KvsError::SerializationError);
    }
    let key = slice_to_vec(slice_subrange(payload, 5, 5 + len));
    if payload[0] == TAG_PUT {
        let value = slice_to_vec(slice_subrange(payload, 5 + len, payload.len()));
        Ok(CommandData::set(key, value))
    } else if payload[0] == TAG_REMOVE && payload.len() == 5 + len {
        Ok(CommandData::remove(key))
    } else {
        Err(KvsError::SerializationError)
    }
}

} // verus!
