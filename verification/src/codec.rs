//! How entries and edits are written as bytes: the payloads of the records
//! of table files and of the version log.
//!
//! Numbers are written in little-endian order: sizes and places as 64-bit
//! numbers, gens and sequence ids as 64-bit numbers shifted so that the
//! smallest becomes zero, and the length of a key as a 32-bit number before
//! the key.

use vstd::prelude::*;
use vstd::bytes::{
    lemma_auto_spec_u32_to_from_le_bytes, lemma_auto_spec_u64_to_from_le_bytes,
    spec_u32_from_le_bytes, spec_u32_to_le_bytes, spec_u64_from_le_bytes, spec_u64_to_le_bytes,
    u32_from_le_bytes, u32_to_le_bytes, u64_from_le_bytes, u64_to_le_bytes,
};
use vstd::slice::{slice_subrange, slice_to_vec};
use crate::command::CommandData;
use crate::error::KvsError;
use crate::log::{
    can_encode, can_frame, closing_record, decode_command, decoded, encode_command, encoded,
    frame, framed, lemma_command_round_trip, lemma_segment_replay, payload_views, replay,
    replay_from, segment_of, terminator, Replay,
};
use crate::run::{Entry, EntryView};

verus! {

/// A signed number as an unsigned one: shifted so that the smallest
/// becomes zero.
pub open spec fn shifted(value: i64) -> u64 {
    (value - i64::MIN) as u64
}

/// The signed number that was shifted to this unsigned one.
pub open spec fn unshifted(code: u64) -> i64 {
    (code + i64::MIN) as i64
}

/// A 64-bit number as a field.
pub open spec fn field_u64(value: u64) -> Seq<u8> {
    spec_u64_to_le_bytes(value)
}

/// A gen or a sequence id as a field.
pub open spec fn field_i64(value: i64) -> Seq<u8> {
    field_u64(shifted(value))
}

/// A key as a field: its length as a 32-bit number, then the key.
pub open spec fn field_key(key: Seq<u8>) -> Seq<u8> {
    spec_u32_to_le_bytes(key.len() as u32) + key
}

/// The 64-bit number that stands at a place, and the place behind it.
pub open spec fn read_u64(bytes: Seq<u8>, at: int) -> Option<(u64, int)> {
    if 0 <= at && at + 8 <= bytes.len() {
        Some((spec_u64_from_le_bytes(bytes.subrange(at, at + 8)), at + 8))
    } else {
        None
    }
}

/// The gen or sequence id that stands at a place, and the place behind it.
pub open spec fn read_i64(bytes: Seq<u8>, at: int) -> Option<(i64, int)> {
    match read_u64(bytes, at) {
        Some((code, next)) => Some((unshifted(code), next)),
        None => None,
    }
}

/// The key that stands at a place, and the place behind it.
pub open spec fn read_key(bytes: Seq<u8>, at: int) -> Option<(Seq<u8>, int)> {
    if 0 <= at && at + 4 <= bytes.len() {
        let len = spec_u32_from_le_bytes(bytes.subrange(at, at + 4)) as int;
        if at + 4 + len <= bytes.len() {
            Some((bytes.subrange(at + 4, at + 4 + len), at + 4 + len))
        } else {
            None
        }
    } else {
        None
    }
}

/// A number that was written is read back, wherever it stands.
pub proof fn lemma_u64_round_trip(before: Seq<u8>, value: u64, after: Seq<u8>)
    ensures
        read_u64(before + field_u64(value) + after, before.len() as int) == Some(
            (value, before.len() as int + 8),
        ),
        field_u64(value).len() == 8,
{
    lemma_auto_spec_u64_to_from_le_bytes();
    let bytes = before + field_u64(value) + after;
    let at = before.len() as int;
    assert(bytes.subrange(at, at + 8) =~= field_u64(value));
}

/// A gen that was written is read back, wherever it stands.
pub proof fn lemma_i64_round_trip(before: Seq<u8>, value: i64, after: Seq<u8>)
    ensures
        read_i64(before + field_i64(value) + after, before.len() as int) == Some(
            (value, before.len() as int + 8),
        ),
        field_i64(value).len() == 8,
{
    lemma_u64_round_trip(before, shifted(value), after);
}

/// A key that was written is read back, wherever it stands.
pub proof fn lemma_key_round_trip(before: Seq<u8>, key: Seq<u8>, after: Seq<u8>)
    requires
        key.len() <= u32::MAX,
    ensures
        read_key(before + field_key(key) + after, before.len() as int) == Some(
            (key, before.len() as int + 4 + key.len() as int),
        ),
        field_key(key).len() == 4 + key.len(),
{
    lemma_auto_spec_u32_to_from_le_bytes();
    let bytes = before + field_key(key) + after;
    let at = before.len() as int;
    assert(bytes.subrange(at, at + 4) =~= spec_u32_to_le_bytes(key.len() as u32));
    assert(bytes.subrange(at + 4, at + 4 + key.len()) =~= key);
}

/// Writes a 64-bit number at the end.
pub fn push_u64(out: &mut Vec<u8>, value: u64)
    ensures
        final(out)@ == old(out)@ + field_u64(value),
{
    let mut field = u64_to_le_bytes(value);
    out.append(&mut field);
}

/// Writes a gen or a sequence id at the end.
pub fn push_i64(out: &mut Vec<u8>, value: i64)
    ensures
        final(out)@ == old(out)@ + field_i64(value),
{
    let code: u64 = if value >= 0 {
        value as u64 + 0x8000_0000_0000_0000u64
    } else {
        (value - i64::MIN) as u64
    };
    push_u64(out, code);
}

/// Writes a key at the end. A key that is longer than its length field can
/// say is not written.
pub fn push_key(out: &mut Vec<u8>, key: &[u8]) -> (written: bool)
    ensures
        written == (key@.len() <= u32::MAX),
        final(out)@ == if written {
            old(out)@ + field_key(key@)
        } else {
            old(out)@
        },
{
    if key.len() > u32::MAX as usize {
        return false;
    }
    let ghost before = out@;
    let mut len = u32_to_le_bytes(key.len() as u32);
    out.append(&mut len);
    let mut body = slice_to_vec(key);
    out.append(&mut body);
    assert(out@ =~= before + field_key(key@));
    true
}

/// Reads the 64-bit number at a place.
pub fn take_u64(bytes: &[u8], at: usize) -> (r: Option<(u64, usize)>)
    ensures
        match r {
            Some((value, next)) => read_u64(bytes@, at as int) == Some((value, next as int))
                && next <= bytes.len(),
            None => read_u64(bytes@, at as int) is None,
        },
{
    if at > bytes.len() || bytes.len() - at < 8 {
        return None;
    }
    Some((u64_from_le_bytes(slice_subrange(bytes, at, at + 8)), at + 8))
}

/// Reads the gen or sequence id at a place.
pub fn take_i64(bytes: &[u8], at: usize) -> (r: Option<(i64, usize)>)
    ensures
        match r {
            Some((value, next)) => read_i64(bytes@, at as int) == Some((value, next as int))
                && next <= bytes.len(),
            None => read_i64(bytes@, at as int) is None,
        },
{
    match take_u64(bytes, at) {
        Some((code, next)) => {
            let value: i64 = if code >= 0x8000_0000_0000_0000u64 {
                (code - 0x8000_0000_0000_0000u64) as i64
            } else {
                code as i64 + i64::MIN
            };
            Some((value, next))
        },
        None => None,
    }
}

/// Reads the key at a place.
pub fn take_key(bytes: &[u8], at: usize) -> (r: Option<(Vec<u8>, usize)>)
    ensures
        match r {
            Some((key, next)) => read_key(bytes@, at as int) == Some((key@, next as int)) && next
                <= bytes.len(),
            None => read_key(bytes@, at as int) is None,
        },
{
    if at > bytes.len() || bytes.len() - at < 4 {
        return None;
    }
    let len = u32_from_le_bytes(slice_subrange(bytes, at, at + 4)) as usize;
    if bytes.len() - at - 4 < len {
        return None;
    }
    let start = at + 4;
    Some((slice_to_vec(slice_subrange(bytes, start, start + len)), start + len))
}

/// An entry as a payload: its sequence id, then its command.
pub open spec fn entry_payload(entry: EntryView) -> Seq<u8> {
    field_i64(entry.seq) + encoded(entry.cmd)
}

/// The entry that a payload holds, if it holds one.
pub open spec fn payload_entry(payload: Seq<u8>) -> Option<EntryView> {
    match read_i64(payload, 0) {
        Some((seq, next)) => match decoded(payload.subrange(next, payload.len() as int)) {
            Some(cmd) => Some(EntryView { cmd, seq }),
            None => None,
        },
        None => None,
    }
}

/// An entry goes to a payload and comes back as it was.
pub proof fn lemma_entry_round_trip(entry: EntryView)
    requires
        can_encode(entry.cmd),
    ensures
        payload_entry(entry_payload(entry)) == Some(entry),
        entry_payload(entry).len() == 8 + encoded(entry.cmd).len(),
{
    let payload = entry_payload(entry);
    lemma_i64_round_trip(Seq::empty(), entry.seq, encoded(entry.cmd));
    assert(Seq::<u8>::empty() + field_i64(entry.seq) + encoded(entry.cmd) =~= payload);
    assert(payload.subrange(8, payload.len() as int) =~= encoded(entry.cmd));
    lemma_command_round_trip(entry.cmd);
}

/// Writes an entry as a payload. An entry whose key is longer than its
/// length field can say is refused.
pub fn encode_entry(entry: &Entry) -> (r: Result<Vec<u8>, KvsError>)
    ensures
        match r {
            Ok(payload) => can_encode(entry@.cmd) && payload@ == entry_payload(entry@),
            Err(e) => e == KvsError::SerializationError && !can_encode(entry@.cmd),
        },
{
    let mut command = match encode_command(&entry.cmd) {
        Ok(command) => command,
        Err(e) => {
            return Err(e);
        },
    };
    let mut payload: Vec<u8> = Vec::new();
    push_i64(&mut payload, entry.seq);
    payload.append(&mut command);
    assert(payload@ =~= entry_payload(entry@));
    Ok(payload)
}

/// Reads the entry that a payload holds.
pub fn decode_entry(payload: &[u8]) -> (r: Result<Entry, KvsError>)
    ensures
        match r {
            Ok(entry) => payload_entry(payload@) == Some(entry@),
            Err(e) => e == KvsError::SerializationError && payload_entry(payload@) is None,
        },
{
    match take_i64(payload, 0) {
        Some((seq, next)) => match decode_command(slice_subrange(payload, next, payload.len())) {
            Ok(cmd) => Ok(Entry { cmd, seq }),
            Err(e) => Err(e),
        },
        None => Err(KvsError::SerializationError),
    }
}

/// The payloads of the entries, in order.
pub open spec fn payloads_of(entries: Seq<EntryView>) -> Seq<Seq<u8>> {
    entries.map_values(|entry: EntryView| entry_payload(entry))
}

/// The bytes of a table file: one record for each entry, in order, and the
/// closing record.
pub open spec fn table_bytes(entries: Seq<EntryView>) -> Seq<u8> {
    segment_of(payloads_of(entries)) + terminator()
}

/// The entries that the payloads hold, in order; none where a payload
/// holds no entry.
pub open spec fn entries_of(payloads: Seq<Seq<u8>>) -> Option<Seq<EntryView>>
    decreases payloads.len(),
{
    if payloads.len() == 0 {
        Some(Seq::empty())
    } else {
        match (entries_of(payloads.drop_last()), payload_entry(payloads.last())) {
            (Some(entries), Some(entry)) => Some(entries.push(entry)),
            _ => None,
        }
    }
}

/// The entries that the bytes of a table file hold; none where a record is
/// corrupt, where the closing record is missing, or where a payload holds
/// no entry.
pub open spec fn bytes_table(bytes: Seq<u8>) -> Option<Seq<EntryView>> {
    match replay_from(bytes, 0) {
        Replay::Records { payloads, clean } => if clean {
            entries_of(payloads)
        } else {
            None
        },
        Replay::Corrupt => None,
    }
}

/// Whether an entry can be written to a table file: its key fits its
/// length field, and its payload fits a record.
pub open spec fn can_store(entry: EntryView) -> bool {
    can_encode(entry.cmd) && can_frame(entry_payload(entry))
}

/// A segment grows by one record at its end.
pub proof fn lemma_segment_push(payloads: Seq<Seq<u8>>, payload: Seq<u8>)
    ensures
        segment_of(payloads.push(payload)) == segment_of(payloads) + framed(payload),
    decreases payloads.len(),
{
    let more = payloads.push(payload);
    if payloads.len() == 0 {
        assert(more.drop_first() =~= Seq::<Seq<u8>>::empty());
        assert(more.first() == payload);
        assert(segment_of(more.drop_first()) =~= Seq::<u8>::empty());
        assert(segment_of(more) =~= framed(payload) + Seq::<u8>::empty());
        assert(segment_of(payloads) + framed(payload) =~= framed(payload));
    } else {
        lemma_segment_push(payloads.drop_first(), payload);
        assert(more.drop_first() =~= payloads.drop_first().push(payload));
        assert(more.first() == payloads.first());
        assert(segment_of(more) =~= segment_of(payloads) + framed(payload));
    }
}

/// The entries of a table file are read back as they were written.
pub proof fn lemma_table_round_trip(entries: Seq<EntryView>)
    requires
        forall|i: int| 0 <= i < entries.len() ==> can_store(#[trigger] entries[i]),
    ensures
        bytes_table(table_bytes(entries)) == Some(entries),
{
    let payloads = payloads_of(entries);
    assert forall|i: int| 0 <= i < payloads.len() implies can_frame(#[trigger] payloads[i]) by {
        assert(can_store(entries[i]));
    }
    lemma_segment_replay(Seq::empty(), payloads, terminator());
    assert(Seq::<u8>::empty() + segment_of(payloads) + terminator() =~= table_bytes(entries));
    lemma_entries_round_trip(entries);
}

proof fn lemma_entries_round_trip(entries: Seq<EntryView>)
    requires
        forall|i: int| 0 <= i < entries.len() ==> can_store(#[trigger] entries[i]),
    ensures
        entries_of(payloads_of(entries)) == Some(entries),
    decreases entries.len(),
{
    if entries.len() > 0 {
        let front = entries.drop_last();
        assert forall|i: int| 0 <= i < front.len() implies can_store(#[trigger] front[i]) by {
            assert(front[i] == entries[i]);
        }
        lemma_entries_round_trip(front);
        assert(payloads_of(entries).drop_last() =~= payloads_of(front));
        assert(can_store(entries[entries.len() - 1]));
        lemma_entry_round_trip(entries.last());
        assert(front.push(entries.last()) =~= entries);
    } else {
        assert(entries =~= Seq::<EntryView>::empty());
    }
}

/// Writes the bytes of a table file. Entries that cannot be written are
/// refused.
pub fn encode_table(entries: &Vec<Entry>) -> (r: Result<Vec<u8>, KvsError>)
    ensures
        match r {
            Ok(bytes) => {
                &&& bytes@ == table_bytes(entries.deep_view())
                &&& forall|i: int|
                    0 <= i < entries.len() ==> can_store(#[trigger] entries.deep_view()[i])
            },
            Err(e) => e == KvsError::SerializationError && exists|i: int|
                0 <= i < entries.len() && !can_store(#[trigger] entries.deep_view()[i]),
        },
{
    let ghost views = entries.deep_view();
    let mut bytes: Vec<u8> = Vec::new();
    let mut i: usize = 0;
    proof {
        assert(payloads_of(views.take(0)) =~= Seq::<Seq<u8>>::empty());
    }
    while i < entries.len()
        invariant
            i <= entries.len(),
            views == entries.deep_view(),
            bytes@ == segment_of(payloads_of(views.take(i as int))),
            forall|k: int| 0 <= k < i ==> can_store(#[trigger] views[k]),
        decreases entries.len() - i,
    {
        assert(views[i as int] == entries[i as int]@);
        let payload = match encode_entry(&entries[i]) {
            Ok(payload) => payload,
            Err(e) => {
                assert(!can_store(views[i as int]));
                return Err(e);
            },
        };
        let mut record = match frame(payload.as_slice()) {
            Ok(record) => record,
            Err(e) => {
                assert(!can_store(views[i as int]));
                return Err(e);
            },
        };
        proof {
            lemma_segment_push(payloads_of(views.take(i as int)), payload@);
            assert(payloads_of(views.take(i + 1)) =~= payloads_of(views.take(i as int)).push(
                payload@,
            ));
        }
        bytes.append(&mut record);
        i += 1;
    }
    assert(views.take(i as int) =~= views);
    let mut closing = closing_record();
    bytes.append(&mut closing);
    Ok(bytes)
}

/// Reads the entries of a table file. A file with a corrupt record, or
/// without the closing record, is reported as corrupt; so is a record that
/// holds no entry.
pub fn decode_table(bytes: &[u8]) -> (r: Result<Vec<Entry>, KvsError>)
    ensures
        match r {
            Ok(entries) => bytes_table(bytes@) == Some(entries.deep_view()),
            Err(e) => e == KvsError::Corruption && bytes_table(bytes@) is None,
        },
{
    let (payloads, clean) = match replay(bytes) {
        Ok(read) => read,
        Err(e) => {
            return Err(e);
        },
    };
    if !clean {
        return Err(KvsError::Corruption);
    }
    let ghost views = payload_views(payloads@);
    let mut entries: Vec<Entry> = Vec::new();
    let mut i: usize = 0;
    proof {
        assert(views.take(0) =~= Seq::<Seq<u8>>::empty());
        assert(entries.deep_view() =~= Seq::<EntryView>::empty());
    }
    while i < payloads.len()
        invariant
            i <= payloads.len(),
            views == payload_views(payloads@),
            replay_from(bytes@, 0) == (Replay::Records { payloads: views, clean: true }),
            entries_of(views.take(i as int)) == Some(entries.deep_view()),
        decreases payloads.len() - i,
    {
        proof {
            assert(views.take(i + 1).drop_last() =~= views.take(i as int));
            assert(views.take(i + 1).last() == payloads@[i as int]@);
        }
        match decode_entry(payloads[i].as_slice()) {
            Ok(entry) => {
                let ghost before = entries.deep_view();
                entries.push(entry);
                assert(entries.deep_view() =~= before.push(entry@));
            },
            Err(_) => {
                proof {
                    lemma_entries_of_stays_none(views, i + 1);
                }
                return Err(KvsError::Corruption);
            },
        }
        i += 1;
    }
    assert(views.take(i as int) =~= views);
    Ok(entries)
}

proof fn lemma_entries_of_stays_none(payloads: Seq<Seq<u8>>, upto: int)
    requires
        0 <= upto <= payloads.len(),
        entries_of(payloads.take(upto)) is None,
    ensures
        entries_of(payloads) is None,
    decreases payloads.len() - upto,
{
    if upto == payloads.len() {
        assert(payloads.take(upto) =~= payloads);
    } else {
        assert(payloads.take(upto + 1).drop_last() =~= payloads.take(upto));
        lemma_entries_of_stays_none(payloads, upto + 1);
    }
}

} // verus!
