//! How the edits of a version are written as bytes: the payloads of the
//! records of the version log. One payload holds the edits of one
//! installation.

use vstd::prelude::*;
use crate::codec::{
    field_i64, field_key, field_u64, lemma_i64_round_trip, lemma_key_round_trip,
    lemma_u64_round_trip, push_i64, push_key, push_u64, read_i64, read_key, read_u64, take_i64,
    take_key, take_u64,
};
use crate::error::KvsError;
use crate::scope::{Scope, ScopeView};
use crate::version::edit::{VersionEdit, VersionEditView};
use crate::version::meta::TableMeta;

verus! {

/// The tag of an edit that deletes tables.
pub const TAG_DELETE_FILE: u8 = 0;

/// The tag of an edit that adds tables.
pub const TAG_NEW_FILE: u8 = 1;

/// What was read so far, followed by what the rest gives.
pub open spec fn glue<T>(read: Seq<T>, rest: Option<(Seq<T>, int)>) -> Option<(Seq<T>, int)> {
    match rest {
        Some((more, end)) => Some((read + more, end)),
        None => None,
    }
}

/// A scope as bytes: its gen, its start key and its end key.
pub open spec fn scope_bytes(scope: ScopeView) -> Seq<u8> {
    field_i64(scope.gen) + field_key(scope.start) + field_key(scope.end)
}

/// Whether a scope can be written: its keys fit their length fields.
pub open spec fn can_write_scope(scope: ScopeView) -> bool {
    scope.start.len() <= u32::MAX && scope.end.len() <= u32::MAX
}

/// The scope that stands at a place, and the place behind it.
pub open spec fn read_scope(bytes: Seq<u8>, at: int) -> Option<(ScopeView, int)> {
    match read_i64(bytes, at) {
        Some((gen, after_gen)) => match read_key(bytes, after_gen) {
            Some((start, after_start)) => match read_key(bytes, after_start) {
                Some((end, next)) => Some((ScopeView { start, end, gen }, next)),
                None => None,
            },
            None => None,
        },
        None => None,
    }
}

/// Gens as bytes, one after the other.
pub open spec fn gens_bytes(gens: Seq<i64>) -> Seq<u8>
    decreases gens.len(),
{
    if gens.len() == 0 {
        Seq::empty()
    } else {
        field_i64(gens.first()) + gens_bytes(gens.drop_first())
    }
}

/// The `count` gens that stand from a place on, and the place behind them.
pub open spec fn read_gens(bytes: Seq<u8>, at: int, count: nat) -> Option<(Seq<i64>, int)>
    decreases count,
{
    if count == 0 {
        Some((Seq::empty(), at))
    } else {
        match read_i64(bytes, at) {
            Some((gen, next)) => glue(seq![gen], read_gens(bytes, next, (count - 1) as nat)),
            None => None,
        }
    }
}

/// Scopes as bytes, one after the other.
pub open spec fn scopes_bytes(scopes: Seq<ScopeView>) -> Seq<u8>
    decreases scopes.len(),
{
    if scopes.len() == 0 {
        Seq::empty()
    } else {
        scope_bytes(scopes.first()) + scopes_bytes(scopes.drop_first())
    }
}

/// The `count` scopes that stand from a place on, and the place behind
/// them.
pub open spec fn read_scopes(bytes: Seq<u8>, at: int, count: nat) -> Option<(Seq<ScopeView>, int)>
    decreases count,
{
    if count == 0 {
        Some((Seq::empty(), at))
    } else {
        match read_scope(bytes, at) {
            Some((scope, next)) => glue(seq![scope], read_scopes(bytes, next, (count - 1) as nat)),
            None => None,
        }
    }
}

/// The counters of an edit as bytes.
pub open spec fn meta_bytes(meta: TableMeta) -> Seq<u8> {
    field_u64(meta.size_of_disk) + field_u64(meta.len as u64)
}

/// A number that was read, as a place or a count in memory, if it fits.
pub open spec fn as_usize(value: u64) -> Option<usize> {
    if value <= usize::MAX {
        Some(value as usize)
    } else {
        None
    }
}

/// The counters that stand at a place, and the place behind them.
pub open spec fn read_meta(bytes: Seq<u8>, at: int) -> Option<(TableMeta, int)> {
    match read_u64(bytes, at) {
        Some((size_of_disk, after_size)) => match read_u64(bytes, after_size) {
            Some((len, next)) => match as_usize(len) {
                Some(len) => Some((TableMeta { size_of_disk, len }, next)),
                None => None,
            },
            None => None,
        },
        None => None,
    }
}

/// An edit as bytes: its tag and its level, for an edit that adds tables
/// the place where they go, its counters, and the number of its gens or
/// scopes followed by them.
pub open spec fn edit_bytes(edit: VersionEditView) -> Seq<u8> {
    match edit {
        VersionEditView::DeleteFile { gens, level, meta } => seq![TAG_DELETE_FILE] + field_u64(
            level as u64,
        ) + meta_bytes(meta) + field_u64(gens.len() as u64) + gens_bytes(gens),
        VersionEditView::NewFile { scopes, level, index, meta } => seq![TAG_NEW_FILE] + field_u64(
            level as u64,
        ) + field_u64(index as u64) + meta_bytes(meta) + field_u64(scopes.len() as u64)
            + scopes_bytes(scopes),
    }
}

/// Whether an edit can be written: the keys of its scopes fit their length
/// fields, and the number of its gens or scopes fits a 64-bit number.
pub open spec fn can_write_edit(edit: VersionEditView) -> bool {
    match edit {
        VersionEditView::DeleteFile { gens, .. } => gens.len() <= u64::MAX,
        VersionEditView::NewFile { scopes, .. } => scopes.len() <= u64::MAX && forall|i: int|
            0 <= i < scopes.len() ==> can_write_scope(#[trigger] scopes[i]),
    }
}

/// The edit that stands at a place, and the place behind it.
pub open spec fn read_edit(bytes: Seq<u8>, at: int) -> Option<(VersionEditView, int)> {
    if at < 0 || at >= bytes.len() {
        None
    } else if bytes[at] == TAG_DELETE_FILE {
        match read_u64(bytes, at + 1) {
            Some((level, after_level)) => match (as_usize(level), read_meta(bytes, after_level)) {
                (Some(level), Some((meta, after_meta))) => match read_u64(bytes, after_meta) {
                    Some((count, after_count)) => match read_gens(
                        bytes,
                        after_count,
                        count as nat,
                    ) {
                        Some((gens, next)) => Some(
                            (VersionEditView::DeleteFile { gens, level, meta }, next),
                        ),
                        None => None,
                    },
                    None => None,
                },
                _ => None,
            },
            None => None,
        }
    } else if bytes[at] == TAG_NEW_FILE {
        match read_u64(bytes, at + 1) {
            Some((level, after_level)) => match read_u64(bytes, after_level) {
                Some((index, after_index)) => match (
                    as_usize(level),
                    as_usize(index),
                    read_meta(bytes, after_index),
                ) {
                    (Some(level), Some(index), Some((meta, after_meta))) => match read_u64(
                        bytes,
                        after_meta,
                    ) {
                        Some((count, after_count)) => match read_scopes(
                            bytes,
                            after_count,
                            count as nat,
                        ) {
                            Some((scopes, next)) => Some(
                                (VersionEditView::NewFile { scopes, level, index, meta }, next),
                            ),
                            None => None,
                        },
                        None => None,
                    },
                    _ => None,
                },
                None => None,
            },
            None => None,
        }
    } else {
        None
    }
}

/// Edits as bytes, one after the other.
pub open spec fn edits_bytes(edits: Seq<VersionEditView>) -> Seq<u8>
    decreases edits.len(),
{
    if edits.len() == 0 {
        Seq::empty()
    } else {
        edit_bytes(edits.first()) + edits_bytes(edits.drop_first())
    }
}

/// The `count` edits that stand from a place on, and the place behind
/// them.
pub open spec fn read_edits(bytes: Seq<u8>, at: int, count: nat) -> Option<
    (Seq<VersionEditView>, int),
>
    decreases count,
{
    if count == 0 {
        Some((Seq::empty(), at))
    } else {
        match read_edit(bytes, at) {
            Some((edit, next)) => glue(seq![edit], read_edits(bytes, next, (count - 1) as nat)),
            None => None,
        }
    }
}

/// The edits of one installation as a payload: their number, then the
/// edits.
pub open spec fn batch_bytes(edits: Seq<VersionEditView>) -> Seq<u8> {
    field_u64(edits.len() as u64) + edits_bytes(edits)
}

/// The edits that a payload holds; none where the payload does not hold
/// as many edits as it says, or holds more bytes than they need.
pub open spec fn bytes_batch(payload: Seq<u8>) -> Option<Seq<VersionEditView>> {
    match read_u64(payload, 0) {
        Some((count, next)) => match read_edits(payload, next, count as nat) {
            Some((edits, end)) => if end == payload.len() {
                Some(edits)
            } else {
                None
            },
            None => None,
        },
        None => None,
    }
}

/// Whether the edits can be written as one payload.
pub open spec fn can_write_batch(edits: Seq<VersionEditView>) -> bool {
    edits.len() <= u64::MAX && forall|i: int|
        0 <= i < edits.len() ==> can_write_edit(#[trigger] edits[i])
}

/// A scope that was written is read back, wherever it stands.
pub proof fn lemma_scope_round_trip(before: Seq<u8>, scope: ScopeView, after: Seq<u8>)
    requires
        can_write_scope(scope),
    ensures
        read_scope(before + scope_bytes(scope) + after, before.len() as int) == Some(
            (scope, before.len() as int + scope_bytes(scope).len()),
        ),
{
    let bytes = before + scope_bytes(scope) + after;
    let gen = field_i64(scope.gen);
    let start = field_key(scope.start);
    let end = field_key(scope.end);
    lemma_i64_round_trip(before, scope.gen, start + end + after);
    assert(before + gen + (start + end + after) =~= bytes);
    lemma_key_round_trip(before + gen, scope.start, end + after);
    assert(before + gen + start + (end + after) =~= bytes);
    lemma_key_round_trip(before + gen + start, scope.end, after);
    assert(before + gen + start + end + after =~= bytes);
}

/// Gens that were written are read back, wherever they stand.
pub proof fn lemma_gens_round_trip(before: Seq<u8>, gens: Seq<i64>, after: Seq<u8>)
    ensures
        read_gens(before + gens_bytes(gens) + after, before.len() as int, gens.len()) == Some(
            (gens, before.len() as int + gens_bytes(gens).len()),
        ),
    decreases gens.len(),
{
    let bytes = before + gens_bytes(gens) + after;
    if gens.len() == 0 {
        assert(gens =~= Seq::<i64>::empty());
    } else {
        let first = field_i64(gens.first());
        let rest = gens.drop_first();
        lemma_i64_round_trip(before, gens.first(), gens_bytes(rest) + after);
        assert(before + first + (gens_bytes(rest) + after) =~= bytes);
        lemma_gens_round_trip(before + first, rest, after);
        assert(before + first + gens_bytes(rest) + after =~= bytes);
        assert(seq![gens.first()] + rest =~= gens);
    }
}

/// Scopes that were written are read back, wherever they stand.
pub proof fn lemma_scopes_round_trip(before: Seq<u8>, scopes: Seq<ScopeView>, after: Seq<u8>)
    requires
        forall|i: int| 0 <= i < scopes.len() ==> can_write_scope(#[trigger] scopes[i]),
    ensures
        read_scopes(before + scopes_bytes(scopes) + after, before.len() as int, scopes.len())
            == Some((scopes, before.len() as int + scopes_bytes(scopes).len())),
    decreases scopes.len(),
{
    let bytes = before + scopes_bytes(scopes) + after;
    if scopes.len() == 0 {
        assert(scopes =~= Seq::<ScopeView>::empty());
    } else {
        let first = scope_bytes(scopes.first());
        let rest = scopes.drop_first();
        assert(can_write_scope(scopes[0]));
        lemma_scope_round_trip(before, scopes.first(), scopes_bytes(rest) + after);
        assert(before + first + (scopes_bytes(rest) + after) =~= bytes);
        assert forall|i: int| 0 <= i < rest.len() implies can_write_scope(#[trigger] rest[i]) by {
            assert(rest[i] == scopes[i + 1]);
        }
        lemma_scopes_round_trip(before + first, rest, after);
        assert(before + first + scopes_bytes(rest) + after =~= bytes);
        assert(seq![scopes.first()] + rest =~= scopes);
    }
}

/// Counters that were written are read back, wherever they stand.
pub proof fn lemma_meta_round_trip(before: Seq<u8>, meta: TableMeta, after: Seq<u8>)
    ensures
        read_meta(before + meta_bytes(meta) + after, before.len() as int) == Some(
            (meta, before.len() as int + 16),
        ),
        meta_bytes(meta).len() == 16,
{
    let bytes = before + meta_bytes(meta) + after;
    let size = field_u64(meta.size_of_disk);
    let len = field_u64(meta.len as u64);
    lemma_u64_round_trip(before, meta.size_of_disk, len + after);
    assert(before + size + (len + after) =~= bytes);
    lemma_u64_round_trip(before + size, meta.len as u64, after);
    assert(before + size + len + after =~= bytes);
}

proof fn lemma_delete_file_round_trip(
    before: Seq<u8>,
    gens: Seq<i64>,
    level: usize,
    meta: TableMeta,
    after: Seq<u8>,
)
    requires
        gens.len() <= u64::MAX,
    ensures
        ({
            let edit = VersionEditView::DeleteFile { gens, level, meta };
            read_edit(before + edit_bytes(edit) + after, before.len() as int) == Some(
                (edit, before.len() as int + edit_bytes(edit).len()),
            )
        }),
{
    let edit = VersionEditView::DeleteFile { gens, level, meta };
    let bytes = before + edit_bytes(edit) + after;
    let at = before.len() as int;
    let tag = seq![TAG_DELETE_FILE];
    let depth = field_u64(level as u64);
    let counters = meta_bytes(meta);
    let count = field_u64(gens.len() as u64);
    let list = gens_bytes(gens);
    assert(bytes[at] == TAG_DELETE_FILE);
    let p1 = before + tag;
    let p2 = p1 + depth;
    let p3 = p2 + counters;
    let p4 = p3 + count;
    assert(read_u64(bytes, at + 1) == Some((level as u64, at + 9))) by {
        lemma_u64_round_trip(p1, level as u64, counters + count + list + after);
        assert(p1 + depth + (counters + count + list + after) =~= bytes);
    }
    assert(read_meta(bytes, at + 9) == Some((meta, at + 25))) by {
        lemma_meta_round_trip(p2, meta, count + list + after);
        lemma_u64_round_trip(p1, level as u64, Seq::empty());
        assert(p2 + counters + (count + list + after) =~= bytes);
    }
    assert(read_u64(bytes, at + 25) == Some((gens.len() as u64, at + 33))) by {
        lemma_u64_round_trip(p3, gens.len() as u64, list + after);
        lemma_u64_round_trip(p1, level as u64, Seq::empty());
        lemma_meta_round_trip(p2, meta, Seq::empty());
        assert(p3 + count + (list + after) =~= bytes);
    }
    assert(read_gens(bytes, at + 33, gens.len()) == Some((gens, at + 33 + list.len()))) by {
        lemma_gens_round_trip(p4, gens, after);
        lemma_u64_round_trip(p1, level as u64, Seq::empty());
        lemma_meta_round_trip(p2, meta, Seq::empty());
        lemma_u64_round_trip(p3, gens.len() as u64, Seq::empty());
        assert(p4 + list + after =~= bytes);
    }
    assert(edit_bytes(edit).len() == 33 + list.len()) by {
        lemma_u64_round_trip(p1, level as u64, Seq::empty());
        lemma_meta_round_trip(p2, meta, Seq::empty());
        lemma_u64_round_trip(p3, gens.len() as u64, Seq::empty());
    }
}

proof fn lemma_new_file_round_trip(
    before: Seq<u8>,
    scopes: Seq<ScopeView>,
    level: usize,
    index: usize,
    meta: TableMeta,
    after: Seq<u8>,
)
    requires
        scopes.len() <= u64::MAX,
        forall|i: int| 0 <= i < scopes.len() ==> can_write_scope(#[trigger] scopes[i]),
    ensures
        ({
            let edit = VersionEditView::NewFile { scopes, level, index, meta };
            read_edit(before + edit_bytes(edit) + after, before.len() as int) == Some(
                (edit, before.len() as int + edit_bytes(edit).len()),
            )
        }),
{
    let edit = VersionEditView::NewFile { scopes, level, index, meta };
    let bytes = before + edit_bytes(edit) + after;
    let at = before.len() as int;
    let tag = seq![TAG_NEW_FILE];
    let depth = field_u64(level as u64);
    let place = field_u64(index as u64);
    let counters = meta_bytes(meta);
    let count = field_u64(scopes.len() as u64);
    let list = scopes_bytes(scopes);
    assert(bytes[at] == TAG_NEW_FILE);
    let p1 = before + tag;
    let p2 = p1 + depth;
    let p3 = p2 + place;
    let p4 = p3 + counters;
    let p5 = p4 + count;
    assert(read_u64(bytes, at + 1) == Some((level as u64, at + 9))) by {
        lemma_u64_round_trip(p1, level as u64, place + counters + count + list + after);
        assert(p1 + depth + (place + counters + count + list + after) =~= bytes);
    }
    assert(read_u64(bytes, at + 9) == Some((index as u64, at + 17))) by {
        lemma_u64_round_trip(p2, index as u64, counters + count + list + after);
        lemma_u64_round_trip(p1, level as u64, Seq::empty());
        assert(p2 + place + (counters + count + list + after) =~= bytes);
    }
    assert(read_meta(bytes, at + 17) == Some((meta, at + 33))) by {
        lemma_meta_round_trip(p3, meta, count + list + after);
        lemma_u64_round_trip(p1, level as u64, Seq::empty());
        lemma_u64_round_trip(p2, index as u64, Seq::empty());
        assert(p3 + counters + (count + list + after) =~= bytes);
    }
    assert(read_u64(bytes, at + 33) == Some((scopes.len() as u64, at + 41))) by {
        lemma_u64_round_trip(p4, scopes.len() as u64, list + after);
        lemma_u64_round_trip(p1, level as u64, Seq::empty());
        lemma_u64_round_trip(p2, index as u64, Seq::empty());
        lemma_meta_round_trip(p3, meta, Seq::empty());
        assert(p4 + count + (list + after) =~= bytes);
    }
    assert(read_scopes(bytes, at + 41, scopes.len()) == Some((scopes, at + 41 + list.len()))) by {
        lemma_scopes_round_trip(p5, scopes, after);
        lemma_u64_round_trip(p1, level as u64, Seq::empty());
        lemma_u64_round_trip(p2, index as u64, Seq::empty());
        lemma_meta_round_trip(p3, meta, Seq::empty());
        lemma_u64_round_trip(p4, scopes.len() as u64, Seq::empty());
        assert(p5 + list + after =~= bytes);
    }
    assert(edit_bytes(edit).len() == 41 + list.len()) by {
        lemma_u64_round_trip(p1, level as u64, Seq::empty());
        lemma_u64_round_trip(p2, index as u64, Seq::empty());
        lemma_meta_round_trip(p3, meta, Seq::empty());
        lemma_u64_round_trip(p4, scopes.len() as u64, Seq::empty());
    }
}

/// An edit that was written is read back, wherever it stands.
pub proof fn lemma_edit_round_trip(before: Seq<u8>, edit: VersionEditView, after: Seq<u8>)
    requires
        can_write_edit(edit),
    ensures
        read_edit(before + edit_bytes(edit) + after, before.len() as int) == Some(
            (edit, before.len() as int + edit_bytes(edit).len()),
        ),
{
    match edit {
        VersionEditView::DeleteFile { gens, level, meta } => {
            lemma_delete_file_round_trip(before, gens, level, meta, after);
        },
        VersionEditView::NewFile { scopes, level, index, meta } => {
            lemma_new_file_round_trip(before, scopes, level, index, meta, after);
        },
    }
}

/// Edits that were written are read back, wherever they stand.
pub proof fn lemma_edits_round_trip(before: Seq<u8>, edits: Seq<VersionEditView>, after: Seq<u8>)
    requires
        forall|i: int| 0 <= i < edits.len() ==> can_write_edit(#[trigger] edits[i]),
    ensures
        read_edits(before + edits_bytes(edits) + after, before.len() as int, edits.len()) == Some(
            (edits, before.len() as int + edits_bytes(edits).len()),
        ),
    decreases edits.len(),
{
    let bytes = before + edits_bytes(edits) + after;
    if edits.len() == 0 {
        assert(edits =~= Seq::<VersionEditView>::empty());
    } else {
        let first = edit_bytes(edits.first());
        let rest = edits.drop_first();
        assert(can_write_edit(edits[0]));
        lemma_edit_round_trip(before, edits.first(), edits_bytes(rest) + after);
        assert(before + first + (edits_bytes(rest) + after) =~= bytes);
        assert forall|i: int| 0 <= i < rest.len() implies can_write_edit(#[trigger] rest[i]) by {
            assert(rest[i] == edits[i + 1]);
        }
        lemma_edits_round_trip(before + first, rest, after);
        assert(before + first + edits_bytes(rest) + after =~= bytes);
        assert(seq![edits.first()] + rest =~= edits);
    }
}

/// The edits of an installation go to a payload and come back as they
/// were.
pub proof fn lemma_batch_round_trip(edits: Seq<VersionEditView>)
    requires
        can_write_batch(edits),
    ensures
        bytes_batch(batch_bytes(edits)) == Some(edits),
{
    let count = field_u64(edits.len() as u64);
    lemma_u64_round_trip(Seq::empty(), edits.len() as u64, edits_bytes(edits));
    assert(Seq::<u8>::empty() + count + edits_bytes(edits) =~= batch_bytes(edits));
    lemma_edits_round_trip(count, edits, Seq::empty());
    assert(count + edits_bytes(edits) + Seq::<u8>::empty() =~= batch_bytes(edits));
}

/// The bytes of gens grow by one gen at their end.
proof fn lemma_gens_bytes_push(gens: Seq<i64>, gen: i64)
    ensures
        gens_bytes(gens.push(gen)) == gens_bytes(gens) + field_i64(gen),
    decreases gens.len(),
{
    let more = gens.push(gen);
    if gens.len() == 0 {
        assert(more.drop_first() =~= Seq::<i64>::empty());
        assert(more.first() == gen);
        assert(gens_bytes(more.drop_first()) =~= Seq::<u8>::empty());
        assert(gens_bytes(more) =~= gens_bytes(gens) + field_i64(gen));
    } else {
        lemma_gens_bytes_push(gens.drop_first(), gen);
        assert(more.drop_first() =~= gens.drop_first().push(gen));
        assert(more.first() == gens.first());
        assert(gens_bytes(more) =~= gens_bytes(gens) + field_i64(gen));
    }
}

/// The bytes of scopes grow by one scope at their end.
proof fn lemma_scopes_bytes_push(scopes: Seq<ScopeView>, scope: ScopeView)
    ensures
        scopes_bytes(scopes.push(scope)) == scopes_bytes(scopes) + scope_bytes(scope),
    decreases scopes.len(),
{
    let more = scopes.push(scope);
    if scopes.len() == 0 {
        assert(more.drop_first() =~= Seq::<ScopeView>::empty());
        assert(more.first() == scope);
        assert(scopes_bytes(more.drop_first()) =~= Seq::<u8>::empty());
        assert(scopes_bytes(more) =~= scopes_bytes(scopes) + scope_bytes(scope));
    } else {
        lemma_scopes_bytes_push(scopes.drop_first(), scope);
        assert(more.drop_first() =~= scopes.drop_first().push(scope));
        assert(more.first() == scopes.first());
        assert(scopes_bytes(more) =~= scopes_bytes(scopes) + scope_bytes(scope));
    }
}

/// The bytes of edits grow by one edit at their end.
proof fn lemma_edits_bytes_push(edits: Seq<VersionEditView>, edit: VersionEditView)
    ensures
        edits_bytes(edits.push(edit)) == edits_bytes(edits) + edit_bytes(edit),
    decreases edits.len(),
{
    let more = edits.push(edit);
    if edits.len() == 0 {
        assert(more.drop_first() =~= Seq::<VersionEditView>::empty());
        assert(more.first() == edit);
        assert(edits_bytes(more.drop_first()) =~= Seq::<u8>::empty());
        assert(edits_bytes(more) =~= edits_bytes(edits) + edit_bytes(edit));
    } else {
        lemma_edits_bytes_push(edits.drop_first(), edit);
        assert(more.drop_first() =~= edits.drop_first().push(edit));
        assert(more.first() == edits.first());
        assert(edits_bytes(more) =~= edits_bytes(edits) + edit_bytes(edit));
    }
}

/// Writes the counters of an edit at the end.
fn push_meta(out: &mut Vec<u8>, meta: &TableMeta)
    ensures
        final(out)@ == old(out)@ + meta_bytes(*meta),
{
    let ghost before = out@;
    push_u64(out, meta.size_of_disk);
    push_u64(out, meta.len as u64);
    assert(out@ =~= before + meta_bytes(*meta));
}

/// Writes the gens at the end.
fn push_gens(out: &mut Vec<u8>, gens: &Vec<i64>)
    ensures
        final(out)@ == old(out)@ + gens_bytes(gens@),
{
    let ghost before = out@;
    let mut i: usize = 0;
    assert(gens@.take(0) =~= Seq::<i64>::empty());
    assert(out@ =~= before + gens_bytes(gens@.take(0)));
    while i < gens.len()
        invariant
            i <= gens.len(),
            out@ == before + gens_bytes(gens@.take(i as int)),
        decreases gens.len() - i,
    {
        proof {
            lemma_gens_bytes_push(gens@.take(i as int), gens@[i as int]);
            assert(gens@.take(i + 1) =~= gens@.take(i as int).push(gens@[i as int]));
        }
        let ghost so_far = out@;
        push_i64(out, gens[i]);
        assert(out@ =~= before + gens_bytes(gens@.take(i + 1)));
        i += 1;
    }
    assert(gens@.take(i as int) =~= gens@);
}

/// Writes the scopes at the end; not, where one of them cannot be
/// written. What was written up to that one stays.
fn push_scopes(out: &mut Vec<u8>, scopes: &Vec<Scope>) -> (written: bool)
    ensures
        written == forall|i: int|
            0 <= i < scopes.len() ==> can_write_scope(#[trigger] scopes.deep_view()[i]),
        written ==> final(out)@ == old(out)@ + scopes_bytes(scopes.deep_view()),
{
    let ghost before = out@;
    let ghost views = scopes.deep_view();
    let mut i: usize = 0;
    assert(views.take(0) =~= Seq::<ScopeView>::empty());
    assert(out@ =~= before + scopes_bytes(views.take(0)));
    while i < scopes.len()
        invariant
            i <= scopes.len(),
            views == scopes.deep_view(),
            out@ == before + scopes_bytes(views.take(i as int)),
            forall|k: int| 0 <= k < i ==> can_write_scope(#[trigger] views[k]),
        decreases scopes.len() - i,
    {
        let scope = &scopes[i];
        assert(views[i as int] == scope@);
        proof {
            lemma_scopes_bytes_push(views.take(i as int), scope@);
            assert(views.take(i + 1) =~= views.take(i as int).push(scope@));
        }
        let ghost so_far = out@;
        push_i64(out, scope.get_gen());
        if !push_key(out, scope.start()) {
            assert(!can_write_scope(views[i as int]));
            return false;
        }
        if !push_key(out, scope.end()) {
            assert(!can_write_scope(views[i as int]));
            return false;
        }
        assert(out@ =~= so_far + scope_bytes(scope@));
        assert(out@ =~= before + scopes_bytes(views.take(i + 1)));
        i += 1;
    }
    assert(views.take(i as int) =~= views);
    true
}

/// Writes the edits of one installation as a payload. Edits that cannot
/// be written are refused.
pub fn encode_edits(edits: &Vec<VersionEdit>) -> (r: Result<Vec<u8>, KvsError>)
    ensures
        match r {
            Ok(payload) => can_write_batch(edits.deep_view()) && payload@ == batch_bytes(
                edits.deep_view(),
            ),
            Err(e) => e == KvsError::SerializationError && !can_write_batch(edits.deep_view()),
        },
{
    let ghost views = edits.deep_view();
    let mut payload: Vec<u8> = Vec::new();
    push_u64(&mut payload, edits.len() as u64);
    let ghost head = payload@;
    let mut i: usize = 0;
    assert(views.take(0) =~= Seq::<VersionEditView>::empty());
    assert(payload@ =~= head + edits_bytes(views.take(0)));
    while i < edits.len()
        invariant
            i <= edits.len(),
            views == edits.deep_view(),
            head == field_u64(edits.len() as u64),
            payload@ == head + edits_bytes(views.take(i as int)),
            forall|k: int| 0 <= k < i ==> can_write_edit(#[trigger] views[k]),
        decreases edits.len() - i,
    {
        let edit = &edits[i];
        assert(views[i as int] == edit@);
        proof {
            lemma_edits_bytes_push(views.take(i as int), edit@);
            assert(views.take(i + 1) =~= views.take(i as int).push(edit@));
        }
        let ghost so_far = payload@;
        match edit {
            VersionEdit::DeleteFile((gens, level), meta) => {
                payload.push(TAG_DELETE_FILE);
                push_u64(&mut payload, *level as u64);
                push_meta(&mut payload, meta);
                push_u64(&mut payload, gens.len() as u64);
                push_gens(&mut payload, gens);
            },
            VersionEdit::NewFile((scopes, level), index, meta) => {
                payload.push(TAG_NEW_FILE);
                push_u64(&mut payload, *level as u64);
                push_u64(&mut payload, *index as u64);
                push_meta(&mut payload, meta);
                push_u64(&mut payload, scopes.len() as u64);
                if !push_scopes(&mut payload, scopes) {
                    assert(!can_write_edit(views[i as int]));
                    return Err(KvsError::SerializationError);
                }
            },
        }
        assert(payload@ =~= so_far + edit_bytes(edit@));
        assert(payload@ =~= head + edits_bytes(views.take(i + 1)));
        i += 1;
    }
    assert(views.take(i as int) =~= views);
    Ok(payload)
}

/// Reads a place or a count at a place.
fn take_usize(bytes: &[u8], at: usize) -> (r: Option<(Option<usize>, u64, usize)>)
    ensures
        match r {
            Some((fits, value, next)) => read_u64(bytes@, at as int) == Some((value, next as int))
                && fits == as_usize(value) && next <= bytes.len(),
            None => read_u64(bytes@, at as int) is None,
        },
{
    match take_u64(bytes, at) {
        Some((value, next)) => {
            if value <= usize::MAX as u64 {
                Some((Some(value as usize), value, next))
            } else {
                Some((None, value, next))
            }
        },
        None => None,
    }
}

/// Reads the counters of an edit at a place.
fn take_meta(bytes: &[u8], at: usize) -> (r: Option<(TableMeta, usize)>)
    ensures
        match r {
            Some((meta, next)) => read_meta(bytes@, at as int) == Some((meta, next as int)) && next
                <= bytes.len(),
            None => read_meta(bytes@, at as int) is None,
        },
{
    match take_u64(bytes, at) {
        Some((size_of_disk, after_size)) => match take_usize(bytes, after_size) {
            Some((Some(len), _, next)) => Some((TableMeta { size_of_disk, len }, next)),
            _ => None,
        },
        None => None,
    }
}

/// Reads the scope at a place.
fn take_scope(bytes: &[u8], at: usize) -> (r: Option<(Scope, usize)>)
    ensures
        match r {
            Some((scope, next)) => read_scope(bytes@, at as int) == Some((scope@, next as int))
                && next <= bytes.len(),
            None => read_scope(bytes@, at as int) is None,
        },
{
    match take_i64(bytes, at) {
        Some((gen, after_gen)) => match take_key(bytes, after_gen) {
            Some((start, after_start)) => match take_key(bytes, after_start) {
                Some((end, next)) => Some((Scope::from_range(gen, start, end), next)),
                None => None,
            },
            None => None,
        },
        None => None,
    }
}

/// Reads `count` gens from a place on.
fn take_gens(bytes: &[u8], at: usize, count: u64) -> (r: Option<(Vec<i64>, usize)>)
    requires
        at <= bytes.len(),
    ensures
        match r {
            Some((gens, next)) => read_gens(bytes@, at as int, count as nat) == Some(
                (gens@, next as int),
            ) && next <= bytes.len(),
            None => read_gens(bytes@, at as int, count as nat) is None,
        },
{
    let mut gens: Vec<i64> = Vec::new();
    let mut place: usize = at;
    let mut left: u64 = count;
    loop
        invariant
            left <= count,
            place <= bytes.len(),
            read_gens(bytes@, at as int, count as nat) == glue(
                gens@,
                read_gens(bytes@, place as int, left as nat),
            ),
        decreases left,
    {
        if left == 0 {
            assert(gens@ + Seq::<i64>::empty() =~= gens@);
            return Some((gens, place));
        }
        match take_i64(bytes, place) {
            Some((gen, next)) => {
                proof {
                    let rest = read_gens(bytes@, next as int, (left - 1) as nat);
                    if rest is Some {
                        assert(gens@ + (seq![gen] + rest.unwrap().0) =~= gens@.push(gen)
                            + rest.unwrap().0);
                    }
                }
                gens.push(gen);
                place = next;
                left -= 1;
            },
            None => {
                return None;
            },
        }
    }
}

/// Reads `count` scopes from a place on.
fn take_scopes(bytes: &[u8], at: usize, count: u64) -> (r: Option<(Vec<Scope>, usize)>)
    requires
        at <= bytes.len(),
    ensures
        match r {
            Some((scopes, next)) => read_scopes(bytes@, at as int, count as nat) == Some(
                (scopes.deep_view(), next as int),
            ) && next <= bytes.len(),
            None => read_scopes(bytes@, at as int, count as nat) is None,
        },
{
    let mut scopes: Vec<Scope> = Vec::new();
    let mut place: usize = at;
    let mut left: u64 = count;
    assert(scopes.deep_view() =~= Seq::<ScopeView>::empty());
    loop
        invariant
            left <= count,
            place <= bytes.len(),
            read_scopes(bytes@, at as int, count as nat) == glue(
                scopes.deep_view(),
                read_scopes(bytes@, place as int, left as nat),
            ),
        decreases left,
    {
        if left == 0 {
            assert(scopes.deep_view() + Seq::<ScopeView>::empty() =~= scopes.deep_view());
            return Some((scopes, place));
        }
        match take_scope(bytes, place) {
            Some((scope, next)) => {
                let ghost before = scopes.deep_view();
                proof {
                    let rest = read_scopes(bytes@, next as int, (left - 1) as nat);
                    if rest is Some {
                        assert(before + (seq![scope@] + rest.unwrap().0) =~= before.push(scope@)
                            + rest.unwrap().0);
                    }
                }
                scopes.push(scope);
                assert(scopes.deep_view() =~= before.push(scope@));
                place = next;
                left -= 1;
            },
            None => {
                return None;
            },
        }
    }
}

/// Reads the edit at a place.
fn take_edit(bytes: &[u8], at: usize) -> (r: Option<(VersionEdit, usize)>)
    ensures
        match r {
            Some((edit, next)) => read_edit(bytes@, at as int) == Some((edit@, next as int))
                && next <= bytes.len(),
            None => read_edit(bytes@, at as int) is None,
        },
{
    if at >= bytes.len() {
        return None;
    }
    let tag = bytes[at];
    if tag == TAG_DELETE_FILE {
        let (level, after_level) = match take_usize(bytes, at + 1) {
            Some((Some(level), _, next)) => (level, next),
            _ => {
                return None;
            },
        };
        let (meta, after_meta) = match take_meta(bytes, after_level) {
            Some(read) => read,
            None => {
                return None;
            },
        };
        let (count, after_count) = match take_u64(bytes, after_meta) {
            Some(read) => read,
            None => {
                return None;
            },
        };
        match take_gens(bytes, after_count, count) {
            Some((gens, next)) => Some((VersionEdit::DeleteFile((gens, level), meta), next)),
            None => None,
        }
    } else if tag == TAG_NEW_FILE {
        let (level, after_level) = match take_usize(bytes, at + 1) {
            Some((level, _, next)) => (level, next),
            None => {
                return None;
            },
        };
        let (index, after_index) = match take_usize(bytes, after_level) {
            Some((index, _, next)) => (index, next),
            None => {
                return None;
            },
        };
        let (level, index) = match (level, index) {
            (Some(level), Some(index)) => (level, index),
            _ => {
                return None;
            },
        };
        let (meta, after_meta) = match take_meta(bytes, after_index) {
            Some(read) => read,
            None => {
                return None;
            },
        };
        let (count, after_count) = match take_u64(bytes, after_meta) {
            Some(read) => read,
            None => {
                return None;
            },
        };
        match take_scopes(bytes, after_count, count) {
            Some((scopes, next)) => Some((VersionEdit::NewFile((scopes, level), index, meta), next)),
            None => None,
        }
    } else {
        None
    }
}

/// Reads the edits that a payload holds.
pub fn decode_edits(payload: &[u8]) -> (r: Result<Vec<VersionEdit>, KvsError>)
    ensures
        match r {
            Ok(edits) => bytes_batch(payload@) == Some(edits.deep_view()),
            Err(e) => e == KvsError::SerializationError && bytes_batch(payload@) is None,
        },
{
    let (count, start) = match take_u64(payload, 0) {
        Some(read) => read,
        None => {
            return Err(KvsError::SerializationError);
        },
    };
    let mut edits: Vec<VersionEdit> = Vec::new();
    let mut place: usize = start;
    let mut left: u64 = count;
    assert(edits.deep_view() =~= Seq::<VersionEditView>::empty());
    loop
        invariant
            left <= count,
            place <= payload.len(),
            read_u64(payload@, 0) == Some((count, start as int)),
            read_edits(payload@, start as int, count as nat) == glue(
                edits.deep_view(),
                read_edits(payload@, place as int, left as nat),
            ),
        decreases left,
    {
        if left == 0 {
            assert(edits.deep_view() + Seq::<VersionEditView>::empty() =~= edits.deep_view());
            if place == payload.len() {
                return Ok(edits);
            }
            return Err(KvsError::SerializationError);
        }
        match take_edit(payload, place) {
            Some((edit, next)) => {
                let ghost before = edits.deep_view();
                proof {
                    let rest = read_edits(payload@, next as int, (left - 1) as nat);
                    if rest is Some {
                        assert(before + (seq![edit@] + rest.unwrap().0) =~= before.push(edit@)
                            + rest.unwrap().0);
                    }
                }
                edits.push(edit);
                assert(edits.deep_view() =~= before.push(edit@));
                place = next;
                left -= 1;
            },
            None => {
                return Err(KvsError::SerializationError);
            },
        }
    }
}

} // verus!
