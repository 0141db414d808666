//! Runs: entries kept in strictly ascending order of key. The table in
//! memory and the tables on disk are both runs.

use vstd::prelude::*;
use crate::command::{CommandData, CommandView};
use crate::keys::{key_lt, key_order, KeyOrder};
use crate::keys::{lemma_key_lt_asymmetric, lemma_key_lt_transitive, lemma_key_order_total};

verus! {

/// A command with the sequence id under which it was written.
#[derive(Debug, PartialEq, Eq)]
pub struct Entry {
    pub cmd: CommandData,
    pub seq: i64,
}

/// An entry as a mathematical value.
pub struct EntryView {
    pub cmd: CommandView,
    pub seq: i64,
}

impl EntryView {
    /// The key of the entry.
    pub open spec fn key(self) -> Seq<u8> {
        self.cmd.key()
    }
}

impl View for Entry {
    type V = EntryView;

    open spec fn view(&self) -> EntryView {
        EntryView { cmd: self.cmd@, seq: self.seq }
    }
}

impl DeepView for Entry {
    type V = EntryView;

    open spec fn deep_view(&self) -> EntryView {
        self@
    }
}

impl Clone for Entry {
    fn clone(&self) -> (r: Self)
        ensures
            r@ == self@,
    {
        Entry { cmd: self.cmd.clone(), seq: self.seq }
    }
}

/// The entries are a run: their keys ascend strictly.
pub open spec fn is_run(entries: Seq<EntryView>) -> bool {
    forall|i: int, j: int|
        0 <= i < j < entries.len() ==> key_lt(
            (#[trigger] entries[i]).key(),
            (#[trigger] entries[j]).key(),
        )
}

/// How many entries have a key that sorts before `key`, counted from the
/// front of a run: the place where an entry with this key stands or would
/// go.
pub open spec fn rank(entries: Seq<EntryView>, key: Seq<u8>) -> int
    decreases entries.len(),
{
    if entries.len() == 0 {
        0
    } else if key_lt(entries.last().key(), key) {
        entries.len() as int
    } else {
        rank(entries.drop_last(), key)
    }
}

/// Whether the run has an entry with this key.
pub open spec fn has_key(entries: Seq<EntryView>, key: Seq<u8>) -> bool {
    0 <= rank(entries, key) < entries.len() && entries[rank(entries, key)].key() == key
}

/// The entry of the run with this key, if it has one.
pub open spec fn entry_at(entries: Seq<EntryView>, key: Seq<u8>) -> Option<EntryView> {
    if has_key(entries, key) {
        Some(entries[rank(entries, key)])
    } else {
        None
    }
}

/// The run with `entry` put in: in the place of the entry with the same
/// key, or where its key belongs.
pub open spec fn with_entry(entries: Seq<EntryView>, entry: EntryView) -> Seq<EntryView> {
    if has_key(entries, entry.key()) {
        entries.update(rank(entries, entry.key()), entry)
    } else {
        entries.insert(rank(entries, entry.key()), entry)
    }
}

/// The rank of a key in a run splits the run: the entries before it have
/// smaller keys, the entries from it on do not.
pub proof fn lemma_rank_splits(entries: Seq<EntryView>, key: Seq<u8>)
    requires
        is_run(entries),
    ensures
        0 <= rank(entries, key) <= entries.len(),
        forall|i: int| 0 <= i < rank(entries, key) ==> key_lt((#[trigger] entries[i]).key(), key),
        forall|i: int|
            rank(entries, key) <= i < entries.len() ==> !key_lt((#[trigger] entries[i]).key(), key),
    decreases entries.len(),
{
    if entries.len() == 0 {
    } else if key_lt(entries.last().key(), key) {
        assert forall|i: int| 0 <= i < entries.len() implies key_lt(
            (#[trigger] entries[i]).key(),
            key,
        ) by {
            if i < entries.len() - 1 {
                lemma_key_lt_transitive(entries[i].key(), entries.last().key(), key);
            }
        }
    } else {
        let front = entries.drop_last();
        assert(is_run(front)) by {
            assert forall|i: int, j: int| 0 <= i < j < front.len() implies key_lt(
                (#[trigger] front[i]).key(),
                (#[trigger] front[j]).key(),
            ) by {
                assert(key_lt(entries[i].key(), entries[j].key()));
            }
        }
        lemma_rank_splits(front, key);
        assert forall|i: int| rank(entries, key) <= i < entries.len() implies !key_lt(
            (#[trigger] entries[i]).key(),
            key,
        ) by {
            if i < front.len() {
                assert(!key_lt(front[i].key(), key));
            }
        }
        assert forall|i: int| 0 <= i < rank(entries, key) implies key_lt(
            (#[trigger] entries[i]).key(),
            key,
        ) by {
            assert(key_lt(front[i].key(), key));
        }
    }
}

/// A place that splits a run as the rank does is the rank.
pub proof fn lemma_rank_is(entries: Seq<EntryView>, key: Seq<u8>, place: int)
    requires
        is_run(entries),
        0 <= place <= entries.len(),
        forall|i: int| 0 <= i < place ==> key_lt((#[trigger] entries[i]).key(), key),
        forall|i: int| place <= i < entries.len() ==> !key_lt((#[trigger] entries[i]).key(), key),
    ensures
        rank(entries, key) == place,
{
    lemma_rank_splits(entries, key);
    let found = rank(entries, key);
    if found < place {
        assert(key_lt(entries[found].key(), key));
    } else if place < found {
        assert(key_lt(entries[place].key(), key));
    }
}

/// In a run an entry is found under its own key, and under no other place.
pub proof fn lemma_run_entry_found(entries: Seq<EntryView>, place: int)
    requires
        is_run(entries),
        0 <= place < entries.len(),
    ensures
        rank(entries, entries[place].key()) == place,
        has_key(entries, entries[place].key()),
        entry_at(entries, entries[place].key()) == Some(entries[place]),
{
    let key = entries[place].key();
    assert forall|i: int| 0 <= i < place implies key_lt((#[trigger] entries[i]).key(), key) by {}
    assert forall|i: int| place <= i < entries.len() implies !key_lt(
        (#[trigger] entries[i]).key(),
        key,
    ) by {
        if key_lt(entries[i].key(), key) {
            lemma_key_lt_asymmetric(entries[i].key(), key);
            if place < i {
                assert(key_lt(entries[place].key(), entries[i].key()));
            }
        }
    }
    lemma_rank_is(entries, key, place);
}

/// A key that the run has not is the key of none of its entries.
pub proof fn lemma_run_key_absent(entries: Seq<EntryView>, key: Seq<u8>)
    requires
        is_run(entries),
        !has_key(entries, key),
    ensures
        forall|i: int| 0 <= i < entries.len() ==> (#[trigger] entries[i]).key() != key,
{
    assert forall|i: int| 0 <= i < entries.len() implies (#[trigger] entries[i]).key() != key by {
        if entries[i].key() == key {
            lemma_run_entry_found(entries, i);
        }
    }
}

/// Putting an entry into a run gives a run, in which the entry is found
/// under its key and every other key finds what it found before.
pub proof fn lemma_with_entry(entries: Seq<EntryView>, entry: EntryView)
    requires
        is_run(entries),
    ensures
        is_run(with_entry(entries, entry)),
        entry_at(with_entry(entries, entry), entry.key()) == Some(entry),
        forall|key: Seq<u8>|
            key != entry.key() ==> entry_at(with_entry(entries, entry), key) == entry_at(
                entries,
                key,
            ),
        with_entry(entries, entry).len() == if has_key(entries, entry.key()) {
            entries.len()
        } else {
            entries.len() + 1
        },
        forall|i: int|
            0 <= i < with_entry(entries, entry).len() ==> (#[trigger] with_entry(entries, entry)[i])
                == entry || exists|j: int|
                0 <= j < entries.len() && entries[j] == with_entry(entries, entry)[i],
{
    let place = rank(entries, entry.key());
    let after = with_entry(entries, entry);
    lemma_rank_splits(entries, entry.key());
    let shift = if has_key(entries, entry.key()) { 0int } else { 1int };
    // where each entry of the new run comes from
    assert forall|i: int| 0 <= i < after.len() implies (#[trigger] after[i]) == (if i < place {
        entries[i]
    } else if i == place {
        entry
    } else {
        entries[i - shift]
    }) by {}
    assert forall|i: int, j: int| 0 <= i < j < after.len() implies key_lt(
        (#[trigger] after[i]).key(),
        (#[trigger] after[j]).key(),
    ) by {
        if j == place {
            assert(key_lt(entries[i].key(), entry.key()));
        } else if i == place {
            let other = entries[j - shift];
            assert(after[j] == other);
            assert(!key_lt(other.key(), entry.key()));
            lemma_key_order_total(other.key(), entry.key());
            if other.key() =~= entry.key() {
                // only the replaced entry has this key
                lemma_run_entry_found(entries, j - shift);
            }
        } else {
            let a = if i < place { i } else { i - shift };
            let b = if j < place { j } else { j - shift };
            assert(after[i] == entries[a]);
            assert(after[j] == entries[b]);
            assert(key_lt(entries[a].key(), entries[b].key()));
        }
    }
    assert(after[place] == entry);
    assert forall|i: int| 0 <= i < after.len() implies (#[trigger] after[i]) == entry || exists|
        j: int,
    | 0 <= j < entries.len() && entries[j] == after[i] by {
        if i < place {
            assert(entries[i] == after[i]);
        } else if i > place {
            assert(entries[i - shift] == after[i]);
        }
    }
    lemma_run_entry_found(after, place);
    assert forall|key: Seq<u8>| key != entry.key() implies entry_at(after, key) == entry_at(
        entries,
        key,
    ) by {
        if has_key(entries, key) {
            let at = rank(entries, key);
            let moved = if at < place { at } else { at + shift };
            assert(at != place || shift == 1) by {
                if at == place && shift == 0 {
                    assert(entries[place].key() == entry.key());
                }
            }
            assert(after[moved] == entries[at]);
            lemma_run_entry_found(after, moved);
        } else {
            lemma_run_key_absent(entries, key);
            if has_key(after, key) {
                let at = rank(after, key);
                assert(after[at].key() == key);
                assert(at != place);
                let from = if at < place { at } else { at - shift };
                assert(after[at] == entries[from]);
                assert(entries[from].key() == key);
            }
        }
    }
}

/// A run without its last entry is a run that finds nothing under the key
/// of that entry and, under every other key, what the whole run finds.
pub proof fn lemma_run_without_last(entries: Seq<EntryView>, key: Seq<u8>)
    requires
        is_run(entries),
        entries.len() > 0,
    ensures
        is_run(entries.drop_last()),
        entry_at(entries.drop_last(), key) == if key == entries.last().key() {
            None
        } else {
            entry_at(entries, key)
        },
{
    let front = entries.drop_last();
    assert forall|i: int, j: int| 0 <= i < j < front.len() implies key_lt(
        (#[trigger] front[i]).key(),
        (#[trigger] front[j]).key(),
    ) by {
        assert(key_lt(entries[i].key(), entries[j].key()));
    }
    if has_key(front, key) {
        let at = rank(front, key);
        assert(front[at] == entries[at]);
        lemma_run_entry_found(entries, at);
        if key == entries.last().key() {
            lemma_run_entry_found(entries, entries.len() - 1);
        }
    } else if has_key(entries, key) {
        let at = rank(entries, key);
        if at < front.len() {
            assert(front[at] == entries[at]);
            lemma_run_entry_found(front, at);
        }
    }
}

/// Two runs that make a run when put one behind the other are runs, and
/// the whole run finds under a key what one of them finds; never both find
/// something.
pub proof fn lemma_run_concat(first: Seq<EntryView>, second: Seq<EntryView>, key: Seq<u8>)
    requires
        is_run(first + second),
    ensures
        is_run(first),
        is_run(second),
        !(entry_at(first, key) is Some && entry_at(second, key) is Some),
        entry_at(first + second, key) == match entry_at(first, key) {
            Some(entry) => Some(entry),
            None => entry_at(second, key),
        },
    decreases second.len(),
{
    let whole = first + second;
    assert forall|i: int, j: int| 0 <= i < j < second.len() implies key_lt(
        (#[trigger] second[i]).key(),
        (#[trigger] second[j]).key(),
    ) by {
        assert(key_lt(whole[first.len() + i].key(), whole[first.len() + j].key()));
    }
    if second.len() == 0 {
        assert(whole =~= first);
    } else {
        assert(whole.drop_last() =~= first + second.drop_last());
        assert(whole.last() == second.last());
        lemma_run_without_last(whole, key);
        lemma_run_without_last(second, key);
        lemma_run_concat(first, second.drop_last(), key);
        let last = second.len() - 1;
        lemma_run_entry_found(second, last);
        lemma_run_entry_found(whole, whole.len() - 1);
    }
}

/// The entries of a run that pass a test are a run, which finds under a
/// key what the run finds if that passes the test.
pub proof fn lemma_run_filter(entries: Seq<EntryView>, test: spec_fn(EntryView) -> bool, key: Seq<u8>)
    requires
        is_run(entries),
    ensures
        is_run(entries.filter(test)),
        entry_at(entries.filter(test), key) == match entry_at(entries, key) {
            Some(entry) => if test(entry) {
                Some(entry)
            } else {
                None
            },
            None => None,
        },
        forall|i: int|
            0 <= i < entries.filter(test).len() ==> exists|j: int|
                0 <= j < entries.len() && entries[j] == #[trigger] entries.filter(test)[i],
    decreases entries.len(),
{
    reveal(Seq::filter);
    if entries.len() > 0 {
        let front = entries.drop_last();
        let last = entries.last();
        let at = entries.len() - 1;
        lemma_run_without_last(entries, key);
        lemma_run_filter(front, test, key);
        lemma_run_entry_found(entries, at);
        let kept = front.filter(test);
        assert forall|i: int| 0 <= i < kept.len() implies exists|j: int|
            0 <= j < entries.len() && entries[j] == #[trigger] kept[i] by {
            let j = choose|j: int| 0 <= j < front.len() && front[j] == kept[i];
            assert(entries[j] == kept[i]);
        }
        if test(last) {
            let more = kept.push(last);
            assert forall|i: int, j: int| 0 <= i < j < more.len() implies key_lt(
                (#[trigger] more[i]).key(),
                (#[trigger] more[j]).key(),
            ) by {
                if j < kept.len() {
                    assert(key_lt(kept[i].key(), kept[j].key()));
                } else {
                    let from = choose|from: int| 0 <= from < front.len() && front[from] == kept[i];
                    assert(key_lt(entries[from].key(), entries[at].key()));
                }
            }
            assert(more.drop_last() =~= kept);
            lemma_run_without_last(more, key);
            lemma_run_entry_found(more, more.len() - 1);
            assert forall|i: int| 0 <= i < more.len() implies exists|j: int|
                0 <= j < entries.len() && entries[j] == #[trigger] more[i] by {
                if i < kept.len() {
                    let j = choose|j: int| 0 <= j < front.len() && front[j] == kept[i];
                    assert(entries[j] == more[i]);
                } else {
                    assert(entries[at] == more[i]);
                }
            }
        }
    }
}

/// The rank of the key of a later entry of a run is larger than that of an
/// earlier one in any other run.
proof fn lemma_rank_ascends(entries: Seq<EntryView>, low: Seq<u8>, high: Seq<u8>)
    requires
        is_run(entries),
        key_lt(low, high),
        has_key(entries, low),
        has_key(entries, high),
    ensures
        rank(entries, low) < rank(entries, high),
{
    lemma_rank_splits(entries, low);
    lemma_rank_splits(entries, high);
    let a = rank(entries, low);
    let b = rank(entries, high);
    if b <= a {
        if b < a {
            assert(key_lt(entries[b].key(), entries[a].key()));
            lemma_key_lt_asymmetric(low, high);
        } else {
            lemma_key_lt_asymmetric(low, high);
        }
    }
}

/// In two runs that find the same under every key, the place of the key of
/// the entry at a place of the first is not before that place.
proof fn lemma_place_not_before(a: Seq<EntryView>, b: Seq<EntryView>, place: int)
    requires
        is_run(a),
        is_run(b),
        forall|key: Seq<u8>| entry_at(a, key) == entry_at(b, key),
        0 <= place < a.len(),
    ensures
        has_key(b, a[place].key()),
        place <= rank(b, a[place].key()) < b.len(),
        b[rank(b, a[place].key())] == a[place],
    decreases place,
{
    lemma_run_entry_found(a, place);
    assert(entry_at(b, a[place].key()) == Some(a[place]));
    if place > 0 {
        lemma_place_not_before(a, b, place - 1);
        assert(key_lt(a[place - 1].key(), a[place].key()));
        lemma_rank_ascends(b, a[place - 1].key(), a[place].key());
    }
}

/// Two runs that find the same under every key are the same run.
pub proof fn lemma_runs_equal(a: Seq<EntryView>, b: Seq<EntryView>)
    requires
        is_run(a),
        is_run(b),
        forall|key: Seq<u8>| entry_at(a, key) == entry_at(b, key),
    ensures
        a == b,
{
    assert forall|i: int| 0 <= i < a.len() implies i < b.len() && a[i] == b[i] by {
        lemma_place_not_before(a, b, i);
        let there = rank(b, a[i].key());
        lemma_place_not_before(b, a, there);
        lemma_run_entry_found(a, i);
        // the way there and back ends where it began
        assert(rank(a, b[there].key()) == i);
    }
    if b.len() > 0 {
        lemma_place_not_before(b, a, b.len() - 1);
    }
    if a.len() > 0 {
        lemma_place_not_before(a, b, a.len() - 1);
    }
    assert(a =~= b);
}

/// Looks for the entry with this key in a run. Answers whether the run has
/// one, and the rank of the key: the place of the entry, or the place where
/// it would go.
pub(crate) fn search(entries: &Vec<Entry>, key: &[u8]) -> (r: (bool, usize))
    requires
        is_run(entries.deep_view()),
    ensures
        r.0 == has_key(entries.deep_view(), key@),
        r.1 == rank(entries.deep_view(), key@),
        r.1 <= entries.len(),
        r.0 ==> r.1 < entries.len(),
{
    let ghost views = entries.deep_view();
    let mut low: usize = 0;
    let mut high: usize = entries.len();
    while low < high
        invariant
            low <= high <= entries.len(),
            views == entries.deep_view(),
            is_run(views),
            forall|i: int| 0 <= i < low ==> key_lt((#[trigger] views[i]).key(), key@),
            forall|i: int| high <= i < views.len() ==> !key_lt((#[trigger] views[i]).key(), key@),
        decreases high - low,
    {
        let middle = low + (high - low) / 2;
        assert(views[middle as int] == entries[middle as int]@);
        match key_order(entries[middle].cmd.get_key().as_slice(), key) {
            KeyOrder::Less => {
                proof {
                    assert forall|i: int| 0 <= i < middle + 1 implies key_lt(
                        (#[trigger] views[i]).key(),
                        key@,
                    ) by {
                        if i < middle {
                            lemma_key_lt_transitive(
                                views[i].key(),
                                views[middle as int].key(),
                                key@,
                            );
                        }
                    }
                }
                low = middle + 1;
            },
            _ => {
                proof {
                    assert forall|i: int| middle <= i < views.len() implies !key_lt(
                        (#[trigger] views[i]).key(),
                        key@,
                    ) by {
                        if middle < i && key_lt(views[i].key(), key@) {
                            lemma_key_lt_transitive(
                                views[middle as int].key(),
                                views[i].key(),
                                key@,
                            );
                        }
                    }
                }
                high = middle;
            },
        }
    }
    proof {
        lemma_rank_is(views, key@, low as int);
    }
    if low < entries.len() {
        assert(views[low as int] == entries[low as int]@);
        match key_order(entries[low].cmd.get_key().as_slice(), key) {
            KeyOrder::Equal => (true, low),
            _ => (false, low),
        }
    } else {
        (false, low)
    }
}

/// Puts an entry into a run: in the place of the entry with the same key,
/// or where its key belongs.
pub(crate) fn put(entries: &mut Vec<Entry>, entry: Entry)
    requires
        is_run(old(entries).deep_view()),
    ensures
        final(entries).deep_view() == with_entry(old(entries).deep_view(), entry@),
        is_run(final(entries).deep_view()),
{
    let ghost before = entries.deep_view();
    let (found, place) = search(entries, entry.cmd.get_key().as_slice());
    proof {
        lemma_with_entry(before, entry@);
    }
    if found {
        entries[place] = entry;
        assert(entries.deep_view() =~= before.update(place as int, entry@));
    } else {
        entries.insert(place, entry);
        assert(entries.deep_view() =~= before.insert(place as int, entry@));
    }
}

} // verus!
