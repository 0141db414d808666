//! The staging table in memory: one run that takes the writes, and at most
//! one frozen run that waits to be written out as a table.

use vstd::prelude::*;
use itertools::Itertools;
use crate::command::{CommandData, CommandView};
use crate::config::Config;
use crate::run::{
    entry_at, has_key, is_run, lemma_runs_equal, lemma_with_entry, put, rank, search, with_entry,
};
use crate::run::{Entry, EntryView};

verus! {

/// The staging table as a mathematical value: the run that takes the
/// writes, and the frozen run if there is one.
pub struct MemTableView {
    pub active: Seq<EntryView>,
    pub frozen: Option<Seq<EntryView>>,
    /// The largest sequence id under which an entry was put in so far.
    pub last_seq: i64,
}

/// No entry has a sequence id above `bound`.
pub open spec fn seqs_up_to(entries: Seq<EntryView>, bound: i64) -> bool {
    forall|i: int| 0 <= i < entries.len() ==> (#[trigger] entries[i]).seq <= bound
}

/// No entry has a sequence id below `bound`.
pub open spec fn seqs_from(entries: Seq<EntryView>, bound: i64) -> bool {
    forall|i: int| 0 <= i < entries.len() ==> (#[trigger] entries[i]).seq >= bound
}

impl MemTableView {
    /// Both runs are runs, and a frozen run is not empty. Sequence ids
    /// never go down: no entry has an id above the last one used, and every
    /// entry of the frozen run is at most as new as every entry of the
    /// active run.
    pub open spec fn wf(self) -> bool {
        &&& is_run(self.active)
        &&& seqs_up_to(self.active, self.last_seq)
        &&& self.frozen matches Some(frozen) ==> {
            &&& is_run(frozen)
            &&& frozen.len() > 0
            &&& seqs_up_to(frozen, self.last_seq)
            &&& forall|i: int|
                0 <= i < frozen.len() ==> seqs_from(self.active, (#[trigger] frozen[i]).seq)
        }
    }

    /// The sequence id under which a command is put in when `seq` is
    /// offered: that id, but never one below the last one used.
    pub open spec fn next_seq(self, seq: i64) -> i64 {
        if seq > self.last_seq {
            seq
        } else {
            self.last_seq
        }
    }

    /// What the staging table finds for a key: the entry of the active run,
    /// else that of the frozen run.
    pub open spec fn entry(self, key: Seq<u8>) -> Option<EntryView> {
        match entry_at(self.active, key) {
            Some(entry) => Some(entry),
            None => match self.frozen {
                Some(frozen) => entry_at(frozen, key),
                None => None,
            },
        }
    }

    /// The value found for a key: that of the command found, which is empty
    /// for a removal.
    pub open spec fn find(self, key: Seq<u8>) -> Option<Seq<u8>> {
        match self.entry(key) {
            Some(entry) => Some(entry.cmd.value()),
            None => None,
        }
    }

    /// The staging table after a write for which the sequence id `seq` is
    /// offered: the command is put into the active run under that id, or
    /// under the last one used if that is larger.
    pub open spec fn inserted(self, cmd: CommandView, seq: i64) -> MemTableView {
        MemTableView {
            active: with_entry(self.active, EntryView { cmd, seq: self.next_seq(seq) }),
            frozen: self.frozen,
            last_seq: self.next_seq(seq),
        }
    }

    /// The staging table after a swap: where no run is frozen and the active
    /// run is not empty, the active run becomes the frozen one and an empty
    /// run takes its place.
    pub open spec fn swapped(self) -> MemTableView {
        if self.frozen is None && self.active.len() > 0 {
            MemTableView { active: Seq::empty(), frozen: Some(self.active), last_seq: self.last_seq }
        } else {
            self
        }
    }
}

/// A write keeps the staging table well formed.
pub proof fn lemma_inserted_wf(mem: MemTableView, cmd: CommandView, seq: i64)
    requires
        mem.wf(),
    ensures
        mem.inserted(cmd, seq).wf(),
{
    let entry = EntryView { cmd, seq: mem.next_seq(seq) };
    let after = mem.inserted(cmd, seq);
    lemma_with_entry(mem.active, entry);
    assert forall|i: int| 0 <= i < after.active.len() implies (#[trigger] after.active[i]).seq
        <= after.last_seq by {
        if after.active[i] != entry {
            let j = choose|j: int| 0 <= j < mem.active.len() && mem.active[j] == after.active[i];
            assert(mem.active[j].seq <= mem.last_seq);
        }
    }
    if mem.frozen is Some {
        let frozen = mem.frozen.unwrap();
        assert forall|i: int| 0 <= i < frozen.len() implies seqs_from(
            after.active,
            (#[trigger] frozen[i]).seq,
        ) by {
            assert(seqs_from(mem.active, frozen[i].seq));
            assert forall|k: int| 0 <= k < after.active.len() implies (
            #[trigger] after.active[k]).seq >= frozen[i].seq by {
                if after.active[k] != entry {
                    let j = choose|j: int|
                        0 <= j < mem.active.len() && mem.active[j] == after.active[k];
                    assert(mem.active[j].seq >= frozen[i].seq);
                }
            }
        }
    }
}

/// In a well-formed staging table, what the frozen run holds for a key is
/// at most as new as what the active run holds for it.
pub proof fn lemma_frozen_is_older(mem: MemTableView, key: Seq<u8>)
    requires
        mem.wf(),
        mem.frozen is Some,
        entry_at(mem.frozen.unwrap(), key) is Some,
        entry_at(mem.active, key) is Some,
    ensures
        entry_at(mem.frozen.unwrap(), key).unwrap().seq <= entry_at(mem.active, key).unwrap().seq,
{
    let frozen = mem.frozen.unwrap();
    let i = rank(frozen, key);
    let j = rank(mem.active, key);
    assert(seqs_from(mem.active, frozen[i].seq));
    assert(mem.active[j].seq >= frozen[i].seq);
}

/// Every entry of a replayed log has the sequence id of the replay.
pub proof fn lemma_replayed_seqs(cmds: Seq<CommandView>, seq: i64)
    ensures
        seqs_up_to(replayed(cmds, seq), seq),
        seqs_from(replayed(cmds, seq), seq),
    decreases cmds.len(),
{
    if cmds.len() > 0 {
        let front = replayed(cmds.drop_last(), seq);
        let entry = EntryView { cmd: cmds.last(), seq };
        lemma_replayed_seqs(cmds.drop_last(), seq);
        lemma_replayed_is_run(cmds.drop_last(), seq);
        lemma_with_entry(front, entry);
        let after = replayed(cmds, seq);
        assert forall|i: int| 0 <= i < after.len() implies (#[trigger] after[i]).seq == seq by {
            if after[i] != entry {
                let j = choose|j: int| 0 <= j < front.len() && front[j] == after[i];
                assert(front[j].seq <= seq && front[j].seq >= seq);
            }
        }
    }
}

/// The largest sequence id among the entries; the smallest id there is
/// where there is no entry.
pub open spec fn max_seq(entries: Seq<EntryView>) -> i64
    decreases entries.len(),
{
    if entries.len() == 0 {
        i64::MIN
    } else {
        let before = max_seq(entries.drop_last());
        if entries.last().seq > before {
            entries.last().seq
        } else {
            before
        }
    }
}

/// The run that a log of commands leaves behind when each command is put in
/// under the same sequence id, in the order of the log: of the commands for
/// one key the last one stays.
pub open spec fn replayed(cmds: Seq<CommandView>, seq: i64) -> Seq<EntryView>
    decreases cmds.len(),
{
    if cmds.len() == 0 {
        Seq::empty()
    } else {
        with_entry(replayed(cmds.drop_last(), seq), EntryView { cmd: cmds.last(), seq })
    }
}

/// Of the commands, for each key the first that names it, in the order of
/// the commands.
pub open spec fn first_per_key(cmds: Seq<CommandView>) -> Seq<CommandView>
    decreases cmds.len(),
{
    if cmds.len() == 0 {
        cmds
    } else {
        let front = cmds.drop_last();
        if exists|i: int| 0 <= i < front.len() && front[i].key() == cmds.last().key() {
            first_per_key(front)
        } else {
            first_per_key(front).push(cmds.last())
        }
    }
}

/// The last of the commands that names the key.
pub open spec fn last_with_key(cmds: Seq<CommandView>, key: Seq<u8>) -> Option<CommandView>
    decreases cmds.len(),
{
    if cmds.len() == 0 {
        None
    } else if cmds.last().key() == key {
        Some(cmds.last())
    } else {
        last_with_key(cmds.drop_last(), key)
    }
}

/// The first of the commands that names the key.
pub open spec fn first_with_key(cmds: Seq<CommandView>, key: Seq<u8>) -> Option<CommandView>
    decreases cmds.len(),
{
    if cmds.len() == 0 {
        None
    } else {
        match first_with_key(cmds.drop_last(), key) {
            Some(cmd) => Some(cmd),
            None => if cmds.last().key() == key {
                Some(cmds.last())
            } else {
                None
            },
        }
    }
}

/// What a replayed log holds for a key is the last command of the log that
/// names the key.
pub proof fn lemma_replayed_holds_last(cmds: Seq<CommandView>, seq: i64, key: Seq<u8>)
    ensures
        is_run(replayed(cmds, seq)),
        entry_at(replayed(cmds, seq), key) == match last_with_key(cmds, key) {
            Some(cmd) => Some(EntryView { cmd, seq }),
            None => None,
        },
    decreases cmds.len(),
{
    if cmds.len() > 0 {
        lemma_replayed_holds_last(cmds.drop_last(), seq, key);
        lemma_with_entry(replayed(cmds.drop_last(), seq), EntryView { cmd: cmds.last(), seq });
    }
}

proof fn lemma_first_with_key_exists(cmds: Seq<CommandView>, key: Seq<u8>)
    ensures
        first_with_key(cmds, key) is Some <==> exists|i: int|
            0 <= i < cmds.len() && cmds[i].key() == key,
        first_with_key(cmds, key) matches Some(cmd) ==> cmd.key() == key,
    decreases cmds.len(),
{
    if cmds.len() > 0 {
        let front = cmds.drop_last();
        lemma_first_with_key_exists(front, key);
        if exists|i: int| 0 <= i < front.len() && front[i].key() == key {
            let i = choose|i: int| 0 <= i < front.len() && front[i].key() == key;
            assert(cmds[i].key() == key);
        } else if cmds.last().key() == key {
            assert(cmds[cmds.len() - 1].key() == key);
        } else if exists|i: int| 0 <= i < cmds.len() && cmds[i].key() == key {
            let i = choose|i: int| 0 <= i < cmds.len() && cmds[i].key() == key;
            assert(front[i].key() == key);
        }
    }
}

/// Among the first commands of each key, the last that names a key is the
/// first of all commands that names it.
proof fn lemma_first_per_key_holds_first(cmds: Seq<CommandView>, key: Seq<u8>)
    ensures
        last_with_key(first_per_key(cmds), key) == first_with_key(cmds, key),
    decreases cmds.len(),
{
    if cmds.len() > 0 {
        let front = cmds.drop_last();
        lemma_first_per_key_holds_first(front, key);
        lemma_first_with_key_exists(front, key);
        lemma_first_with_key_exists(front, cmds.last().key());
        if !(exists|i: int| 0 <= i < front.len() && front[i].key() == cmds.last().key()) {
            let kept = first_per_key(front).push(cmds.last());
            assert(kept.drop_last() =~= first_per_key(front));
        }
    }
}

/// The last command that names a key, seen from the front of the log: it
/// is the last among the commands behind the first, or else the first
/// itself.
proof fn lemma_last_with_key_from_front(cmds: Seq<CommandView>, key: Seq<u8>)
    requires
        cmds.len() > 0,
    ensures
        last_with_key(cmds, key) == match last_with_key(cmds.drop_first(), key) {
            Some(cmd) => Some(cmd),
            None => if cmds.first().key() == key {
                Some(cmds.first())
            } else {
                None
            },
        },
    decreases cmds.len(),
{
    if cmds.len() == 1 {
        assert(cmds.drop_first() =~= Seq::<CommandView>::empty());
        assert(cmds.drop_last() =~= Seq::<CommandView>::empty());
    } else {
        let front = cmds.drop_last();
        lemma_last_with_key_from_front(front, key);
        assert(front.drop_first() =~= cmds.drop_first().drop_last());
        assert(cmds.drop_first().last() == cmds.last());
        assert(front.first() == cmds.first());
    }
}

/// The first command of the reversed log that names a key is the last of
/// the log that names it.
proof fn lemma_first_of_reversed(cmds: Seq<CommandView>, key: Seq<u8>)
    ensures
        first_with_key(cmds.reverse(), key) == last_with_key(cmds, key),
    decreases cmds.len(),
{
    if cmds.len() > 0 {
        let back = cmds.reverse();
        lemma_first_of_reversed(cmds.drop_first(), key);
        lemma_last_with_key_from_front(cmds, key);
        assert(back.drop_last() =~= cmds.drop_first().reverse());
        assert(back.last() == cmds.first());
    }
}

/// Replaying the first commands of each key of the reversed log leaves the
/// same run as replaying the log: of the commands for one key the last one
/// stays.
pub proof fn lemma_replay_of_latest(cmds: Seq<CommandView>, seq: i64)
    ensures
        replayed(first_per_key(cmds.reverse()), seq) == replayed(cmds, seq),
{
    let latest = first_per_key(cmds.reverse());
    assert forall|key: Seq<u8>| entry_at(replayed(latest, seq), key) == entry_at(
        replayed(cmds, seq),
        key,
    ) by {
        lemma_replayed_holds_last(latest, seq, key);
        lemma_replayed_holds_last(cmds, seq, key);
        lemma_first_per_key_holds_first(cmds.reverse(), key);
        lemma_first_of_reversed(cmds, key);
    }
    lemma_replayed_is_run(latest, seq);
    lemma_replayed_is_run(cmds, seq);
    lemma_runs_equal(replayed(latest, seq), replayed(cmds, seq));
}

/// A replayed log is a run.
pub proof fn lemma_replayed_is_run(cmds: Seq<CommandView>, seq: i64)
    ensures
        is_run(replayed(cmds, seq)),
    decreases cmds.len(),
{
    if cmds.len() > 0 {
        lemma_replayed_is_run(cmds.drop_last(), seq);
        lemma_with_entry(replayed(cmds.drop_last(), seq), EntryView { cmd: cmds.last(), seq });
    }
}

/// Replaying a log recovers every write that no later command of the log
/// overrides: the command at `place`, if no command behind it has its key,
/// is what the replayed run holds for that key.
pub proof fn lemma_replay_recovers_last_writes(cmds: Seq<CommandView>, seq: i64, place: int)
    requires
        0 <= place < cmds.len(),
        forall|later: int| place < later < cmds.len() ==> cmds[later].key() != cmds[place].key(),
    ensures
        entry_at(replayed(cmds, seq), cmds[place].key()) == Some(
            EntryView { cmd: cmds[place], seq },
        ),
    decreases cmds.len(),
{
    let front = cmds.drop_last();
    lemma_replayed_is_run(front, seq);
    lemma_with_entry(replayed(front, seq), EntryView { cmd: cmds.last(), seq });
    if place < cmds.len() - 1 {
        assert(front[place] == cmds[place]);
        assert forall|later: int| place < later < front.len() implies front[later].key()
            != front[place].key() by {
            assert(front[later] == cmds[later]);
        }
        lemma_replay_recovers_last_writes(front, seq, place);
        assert(cmds.last().key() != cmds[place].key());
    }
}

/// A key that no command of the log names is not in the replayed run.
pub proof fn lemma_replay_holds_only_logged_keys(cmds: Seq<CommandView>, seq: i64, key: Seq<u8>)
    requires
        forall|i: int| 0 <= i < cmds.len() ==> cmds[i].key() != key,
    ensures
        entry_at(replayed(cmds, seq), key) is None,
    decreases cmds.len(),
{
    if cmds.len() > 0 {
        let front = cmds.drop_last();
        assert forall|i: int| 0 <= i < front.len() implies front[i].key() != key by {
            assert(front[i] == cmds[i]);
        }
        lemma_replay_holds_only_logged_keys(front, seq, key);
        lemma_replayed_is_run(front, seq);
        lemma_with_entry(replayed(front, seq), EntryView { cmd: cmds.last(), seq });
    }
}

/// Calls `Itertools::unique_by` with the key of a command as key. The
/// result holds, in the order of the commands, each command whose key no
/// earlier command has: of the commands for one key the first stays.
#[verifier::external_body]
fn unique_by_key(cmds: Vec<CommandData>) -> (r: Vec<CommandData>)
    ensures
        r.deep_view() == first_per_key(cmds.deep_view()),
{
    cmds.into_iter().unique_by(CommandData::get_key_clone).collect()
}

/// The commands in reverse order.
fn reversed(cmds: Vec<CommandData>) -> (r: Vec<CommandData>)
    ensures
        r.deep_view() == cmds.deep_view().reverse(),
{
    let ghost views = cmds.deep_view();
    let mut rest = cmds;
    let mut back: Vec<CommandData> = Vec::new();
    assert(back.deep_view() =~= Seq::<CommandView>::empty());
    while rest.len() > 0
        invariant
            rest.len() <= views.len(),
            rest.deep_view() == views.take(rest.len() as int),
            back.len() == views.len() - rest.len(),
            forall|i: int|
                0 <= i < back.len() ==> (#[trigger] back.deep_view()[i]) == views[views.len() - 1
                    - i],
        decreases rest.len(),
    {
        let ghost left = rest.len() as int;
        let ghost before = back.deep_view();
        assert(rest.deep_view()[left - 1] == rest@[left - 1]@);
        match rest.pop() {
            Some(cmd) => {
                assert(cmd@ == views[left - 1]);
                back.push(cmd);
                assert(back.deep_view() =~= before.push(views[left - 1]));
                assert(rest.deep_view() =~= views.take(left - 1));
            },
            None => {},
        }
    }
    assert(back.deep_view() =~= views.reverse());
    back
}

/// The staging table of a store.
#[derive(Debug)]
pub struct MemTable {
    mem: Vec<Entry>,
    immut: Option<Vec<Entry>>,
    last_seq: i64,
}

impl View for MemTable {
    type V = MemTableView;

    closed spec fn view(&self) -> MemTableView {
        MemTableView {
            active: self.mem.deep_view(),
            frozen: match self.immut {
                Some(frozen) => Some(frozen.deep_view()),
                None => None,
            },
            last_seq: self.last_seq,
        }
    }
}

/// A copy of the entries.
fn clone_entries(entries: &Vec<Entry>) -> (r: Vec<Entry>)
    ensures
        r.deep_view() == entries.deep_view(),
{
    let r = entries.clone();
    assert(r.deep_view() =~= entries.deep_view());
    r
}

/// The largest sequence id among the entries.
fn last_seq_of(entries: &Vec<Entry>) -> (r: i64)
    ensures
        r == max_seq(entries.deep_view()),
{
    let ghost views = entries.deep_view();
    let mut last: i64 = i64::MIN;
    let mut i: usize = 0;
    assert(views.take(0) =~= Seq::<EntryView>::empty());
    while i < entries.len()
        invariant
            i <= entries.len(),
            views == entries.deep_view(),
            last == max_seq(views.take(i as int)),
        decreases entries.len() - i,
    {
        assert(views.take(i + 1).drop_last() =~= views.take(i as int));
        assert(views.take(i + 1).last() == entries[i as int]@);
        if entries[i].seq > last {
            last = entries[i].seq;
        }
        i += 1;
    }
    assert(views.take(i as int) =~= views);
    last
}

impl MemTable {
    #[verifier::type_invariant]
    spec fn well_formed(&self) -> bool {
        self@.wf()
    }

    /// An empty staging table.
    pub fn new() -> (r: MemTable)
        ensures
            r@ == (MemTableView { active: Seq::empty(), frozen: None, last_seq: i64::MIN }),
            r@.wf(),
    {
        let r = MemTable { mem: Vec::new(), immut: None, last_seq: i64::MIN };
        assert(r.mem.deep_view() =~= Seq::<EntryView>::empty());
        r
    }

    /// The staging table that a log of commands leaves behind when each
    /// command is put in under the sequence id `seq`: of the commands for
    /// one key the last one stays. The log is gone through from its end,
    /// and of each key only the command that is met first is put in.
    pub fn from_log(cmds: Vec<CommandData>, seq: i64) -> (r: MemTable)
        ensures
            r@ == (MemTableView {
                active: replayed(cmds.deep_view(), seq),
                frozen: None,
                last_seq: seq,
            }),
            r@.wf(),
    {
        let ghost log = cmds.deep_view();
        let latest = unique_by_key(reversed(cmds));
        let ghost views = latest.deep_view();
        let mut mem: Vec<Entry> = Vec::new();
        let mut i: usize = 0;
        assert(views.take(0) =~= Seq::<CommandView>::empty());
        assert(mem.deep_view() =~= Seq::<EntryView>::empty());
        while i < latest.len()
            invariant
                i <= latest.len(),
                views == latest.deep_view(),
                mem.deep_view() == replayed(views.take(i as int), seq),
                is_run(mem.deep_view()),
            decreases latest.len() - i,
        {
            assert(views.take(i + 1).drop_last() =~= views.take(i as int));
            assert(views.take(i + 1).last() == latest[i as int]@);
            put(&mut mem, Entry { cmd: latest[i].clone(), seq });
            i += 1;
        }
        proof {
            assert(views.take(i as int) =~= views);
            lemma_replay_of_latest(log, seq);
            lemma_replayed_seqs(log, seq);
        }
        MemTable { mem, immut: None, last_seq: seq }
    }

    /// Puts a command into the active run under the sequence id `seq`, or
    /// under the last one used if that is larger, and answers whether the
    /// run has reached `threshold` entries.
    pub fn insert_data(&mut self, cmd: CommandData, seq: i64, threshold: usize) -> (exceeded: bool)
        ensures
            final(self)@ == old(self)@.inserted(cmd@, seq),
            exceeded == (final(self)@.active.len() >= threshold),
            final(self)@.wf(),
    {
        proof {
            use_type_invariant(&*self);
            lemma_inserted_wf(self@, cmd@, seq);
        }
        let seq = if seq > self.last_seq {
            seq
        } else {
            self.last_seq
        };
        let mut mem: Vec<Entry> = Vec::new();
        assert(mem.deep_view() =~= Seq::<EntryView>::empty());
        std::mem::swap(&mut self.mem, &mut mem);
        put(&mut mem, Entry { cmd, seq });
        self.last_seq = seq;
        self.mem = mem;
        self.mem.len() >= threshold
    }

    /// Puts a command into the active run under a sequence id taken from
    /// the generator of `config`, and answers whether the run has reached
    /// `minor_threshold_with_len` entries.
    pub fn insert_data_and_is_exceeded(&mut self, cmd: CommandData, config: &Config) -> (exceeded:
        bool)
        ensures
            exists|seq: i64| final(self)@ == #[trigger] old(self)@.inserted(cmd@, seq),
            exceeded == (final(self)@.active.len() >= config@.options.minor_threshold_with_len),
            final(self)@.wf(),
    {
        let seq = config.create_gen_lazy();
        self.insert_data(cmd, seq, config.options().minor_threshold_with_len)
    }

    /// The value that the staging table holds for a key: the active run is
    /// asked first, then the frozen one. A removal is found as the empty
    /// value.
    pub fn find(&self, key: &[u8]) -> (r: Option<Vec<u8>>)
        ensures
            match r {
                Some(value) => self@.find(key@) == Some(value@),
                None => self@.find(key@) is None,
            },
    {
        proof {
            use_type_invariant(self);
        }
        let (found, place) = search(&self.mem, key);
        if found {
            assert(self.mem.deep_view()[place as int] == self.mem[place as int]@);
            return Some(self.mem[place].cmd.found_value());
        }
        match &self.immut {
            Some(frozen) => {
                let (found, place) = search(frozen, key);
                if found {
                    assert(frozen.deep_view()[place as int] == frozen[place as int]@);
                    Some(frozen[place].cmd.found_value())
                } else {
                    None
                }
            },
            None => None,
        }
    }

    /// Whether the active run is empty.
    pub fn is_empty(&self) -> (r: bool)
        ensures
            r == (self@.active.len() == 0),
    {
        self.mem.len() == 0
    }

    /// The number of entries of the active run.
    pub fn len(&self) -> (r: usize)
        ensures
            r == self@.active.len(),
    {
        self.mem.len()
    }

    /// Whether a frozen run waits to be written out.
    pub fn has_frozen(&self) -> (r: bool)
        ensures
            r == self@.frozen is Some,
    {
        self.immut.is_some()
    }

    /// Freezes the active run if no run is frozen and the active run is not
    /// empty, and hands out what is then frozen: its entries in ascending
    /// order of key, and the largest sequence id among them. There is
    /// nothing to hand out where no run is frozen after that.
    pub fn table_swap_and_sort(&mut self) -> (r: Option<(Vec<Entry>, i64)>)
        ensures
            final(self)@ == old(self)@.swapped(),
            final(self)@.wf(),
            match r {
                Some((entries, last_seq)) => {
                    &&& final(self)@.frozen == Some(entries.deep_view())
                    &&& last_seq == max_seq(entries.deep_view())
                    &&& is_run(entries.deep_view())
                    &&& entries.len() > 0
                },
                None => final(self)@.frozen is None,
            },
    {
        proof {
            use_type_invariant(&*self);
        }
        if self.immut.is_none() && self.mem.len() > 0 {
            let mut frozen: Vec<Entry> = Vec::new();
            assert(frozen.deep_view() =~= Seq::<EntryView>::empty());
            std::mem::swap(&mut self.mem, &mut frozen);
            self.immut = Some(frozen);
        }
        match &self.immut {
            Some(frozen) => {
                let entries = clone_entries(frozen);
                let last_seq = last_seq_of(&entries);
                Some((entries, last_seq))
            },
            None => None,
        }
    }

    /// The number of entries of the frozen run; none where no run is
    /// frozen.
    pub fn frozen_len(&self) -> (r: Option<usize>)
        ensures
            self@.wf(),
            match r {
                Some(len) => self@.frozen matches Some(frozen) && frozen.len() == len,
                None => self@.frozen is None,
            },
    {
        proof {
            use_type_invariant(self);
        }
        match &self.immut {
            Some(frozen) => Some(frozen.len()),
            None => None,
        }
    }

    /// The first and the last key of the frozen run; none where no run is
    /// frozen.
    pub fn frozen_range(&self) -> (r: Option<(Vec<u8>, Vec<u8>)>)
        ensures
            self@.wf(),
            match r {
                Some((first, last)) => {
                    &&& self@.frozen matches Some(frozen)
                    &&& first@ == frozen.first().key()
                    &&& last@ == frozen.last().key()
                },
                None => self@.frozen is None,
            },
    {
        proof {
            use_type_invariant(self);
        }
        match &self.immut {
            Some(frozen) => {
                let end = frozen.len() - 1;
                assert(frozen.deep_view()[0] == frozen[0]@);
                assert(frozen.deep_view()[end as int] == frozen[end as int]@);
                Some((frozen[0].cmd.get_key_clone(), frozen[end].cmd.get_key_clone()))
            },
            None => None,
        }
    }

    /// Takes the frozen run out, to stand in a table.
    pub fn take_frozen(&mut self) -> (r: Option<Vec<Entry>>)
        ensures
            final(self)@ == (MemTableView { frozen: None, ..old(self)@ }),
            final(self)@.wf(),
            match r {
                Some(entries) => {
                    &&& old(self)@.frozen == Some(entries.deep_view())
                    &&& is_run(entries.deep_view())
                    &&& entries.len() > 0
                },
                None => old(self)@.frozen is None,
            },
    {
        proof {
            use_type_invariant(&*self);
        }
        let mut taken: Option<Vec<Entry>> = None;
        std::mem::swap(&mut self.immut, &mut taken);
        taken
    }

    /// Drops the frozen run, once it stands in a table.
    pub fn clear_frozen(&mut self)
        ensures
            final(self)@ == (MemTableView { frozen: None, ..old(self)@ }),
            final(self)@.wf(),
    {
        proof {
            use_type_invariant(&*self);
        }
        self.immut = None;
    }
}

impl Clone for MemTable {
    fn clone(&self) -> (r: Self)
        ensures
            r@ == self@,
    {
        proof {
            use_type_invariant(self);
        }
        let mem = clone_entries(&self.mem);
        let immut = match &self.immut {
            Some(frozen) => Some(clone_entries(frozen)),
            None => None,
        };
        MemTable { mem, immut, last_seq: self.last_seq }
    }
}

} // verus!
