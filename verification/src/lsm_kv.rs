//! The store: the staging table, the current version and the loaded tables
//! under one roof, and the decisions of its operations. The store works in
//! memory; what has to reach a file or wait for a task is handed back to
//! the caller as a description of the work.

use vstd::prelude::*;
use vstd::slice::slice_to_vec;
use crate::command::{CommandData, CommandView};
use crate::compaction_model::{
    gens_once, holds_output, lemma_major_keeps_get, lemma_whole_level_choice_is_sound,
    takes_whole_tables, chosen_alone, fits, lemma_scopes_alone_tables_alone, level_fits, scopes_alone, scopes_clear_of,
    scopes_hide_none,
};
use crate::compactor::{
    count_tables, edits_for_major, gens_in, gens_of, major_edits, major_output, major_plan,
    merge_major, plan_major, MajorCompaction,
};
use crate::history::{
    lemma_op_keeps_count, lemma_op_keeps_tidy, lemma_tidy_choice_takes_whole_tables, StoreOp,
};
use crate::keys::{key_order, KeyOrder};
use crate::scope::Scope;
use crate::config::{level_capacity, Config, ConfigView, Options};
use crate::error::KvsError;
use crate::mem_table::{max_seq, replayed, MemTable, MemTableView};
use crate::run::{Entry, EntryView};
use crate::store_model::{
    all_loaded, lemma_append_found, lemma_install_keeps_found, lemma_minor_successor,
    lemma_minor_successor_exists, lemma_swap_keeps_found, lemma_written_found, minor_edit,
    StoreView,
};
use crate::table::{gens_distinct, has_table, table_of, tables_wf, Table, TableLoader, TableView};
use crate::totals::{
    all_totals, counts_tables, edits_count_tables, lemma_install_keeps_count,
    lemma_snapshot_log_counts_tables, snapshot_log_counts,
    lemma_successor_counts_tables, lemma_level_totals_not_negative,
    lemma_totals_upto, totals_upto,
};
use crate::version::meta::VersionMeta;
use crate::version::cleaner::CleanTag;
use crate::version::edit::{VersionEdit, VersionEditView};
use crate::version::model::{
    base_edits, deleted_gens, empty_version, levels_ordered, released_gens, successor,
    VersionView, LEVEL_0, LEVEL_COUNT,
};
use crate::version::Version;

verus! {

/// How a command is to reach the write-ahead log.
#[derive(Clone, Copy, Debug, PartialEq, Eq, Structural)]
pub enum WalPut {
    /// Not at all: the log is switched off, or the caller does not ask for
    /// it.
    Skip,
    /// Before the write returns.
    Sync,
    /// By a task of its own, while the write returns.
    Async,
}

/// Where the gen of a new table comes from.
#[derive(Clone, Copy, Debug, PartialEq, Eq, Structural)]
pub enum GenSource {
    /// The write-ahead log is switched to a new segment, and the gen of the
    /// segment that it leaves names the table.
    WalSwitch,
    /// This gen, newly taken from the generator.
    Fresh(i64),
}

/// The work of a minor compaction: the entries of the frozen run are to be
/// written out as a table.
#[derive(Debug)]
pub struct MinorCompaction {
    /// The entries in ascending order of key.
    pub values: Vec<Entry>,
    /// The largest sequence id among the entries.
    pub last_seq_id: i64,
    /// Where the gen of the table comes from.
    pub gen: GenSource,
    /// Whether level 0 is to be compacted afterwards if it is full.
    pub enable_major: bool,
}

/// What a write leaves for the caller to do.
#[derive(Debug)]
pub struct Appended {
    /// How the command is to reach the write-ahead log.
    pub wal: WalPut,
    /// The minor compaction that the write set off, if it set one off.
    pub minor: Option<MinorCompaction>,
}

/// What the installation of tables leaves for the caller to do.
#[derive(Debug)]
pub struct Installed {
    /// The message for the cleaner.
    pub clean_tag: CleanTag,
    /// The level that is to be compacted now, if one is.
    pub compact: Option<usize>,
}

/// A snapshot of a store for a transaction: the version and the staging
/// table as they were when it was taken.
#[derive(Debug)]
pub struct Transaction {
    pub version: Version,
    pub mem_table: MemTable,
}

/// How a command reaches the write-ahead log under these options: not at
/// all where the log is switched off or the caller does not ask for it,
/// else by a task of its own or before the write returns, as the options
/// say.
pub open spec fn wal_put_of(options: Options, wal_write: bool) -> WalPut {
    if !(options.wal_enable && wal_write) {
        WalPut::Skip
    } else if options.wal_async_put_enable {
        WalPut::Async
    } else {
        WalPut::Sync
    }
}

/// The job describes the frozen run of the store: its entries, the largest
/// sequence id among them, and where the gen of the table comes from.
pub open spec fn is_minor_job(job: MinorCompaction, store: StoreView, enable_major: bool) -> bool {
    &&& store.mem.frozen == Some(job.values.deep_view())
    &&& job.last_seq_id == max_seq(job.values.deep_view())
    &&& job.enable_major == enable_major
    &&& store.options.wal_enable ==> job.gen == GenSource::WalSwitch
    &&& !store.options.wal_enable ==> job.gen is Fresh
}

/// What `lock_backoff` answers: nothing once the wait has grown beyond 4,
/// else a hundred milliseconds for each unit of the wait, and the wait
/// doubled.
pub open spec fn lock_wait(backoff: u64) -> Option<(u64, u64)> {
    if backoff == 0 || backoff > 4 {
        None
    } else {
        Some(((backoff * 100) as u64, (backoff * 2) as u64))
    }
}

/// What to do when the directory lock was not free, given the wait that
/// was reached, which starts at 1: no further try once the wait has grown
/// beyond 4, else the milliseconds to wait before the next try and the wait
/// to come here with if that try fails too. So the lock is tried four times
/// within 700 milliseconds.
pub fn lock_backoff(backoff: u64) -> (r: Option<(u64, u64)>)
    ensures
        r == lock_wait(backoff),
{
    if backoff == 0 || backoff > 4 {
        None
    } else {
        Some((backoff * 100, backoff * 2))
    }
}

/// The parts of a store that its operations change.
struct Parts {
    mem_table: MemTable,
    version: Version,
    table_loader: TableLoader,
}

/// The storage engine: a log-structured merge tree with leveled
/// compaction, held in memory.
pub struct LsmStore {
    parts: Parts,
    config: Config,
}

impl View for LsmStore {
    type V = StoreView;

    closed spec fn view(&self) -> StoreView {
        self.parts.view_with(self.config@)
    }
}

impl Parts {
    spec fn view_with(&self, config: ConfigView) -> StoreView {
        StoreView {
            mem: self.mem_table@,
            version: self.version@,
            tables: self.table_loader@,
            options: config.options,
            dir_path: config.dir_path,
        }
    }

    /// The parts of a store that holds nothing.
    fn empty() -> (r: Parts)
        ensures
            r.mem_table@ == (MemTableView { active: Seq::empty(), frozen: None, last_seq: i64::MIN }),
            r.version@ == empty_version(),
            r.table_loader@ == Seq::<TableView>::empty(),
            forall|config: ConfigView| (#[trigger] r.view_with(config)).wf(),
    {
        let r = Parts {
            mem_table: MemTable::new(),
            version: Version::new(),
            table_loader: TableLoader::new(),
        };
        assert forall|config: ConfigView| (#[trigger] r.view_with(config)).wf() by {
            assert(r.table_loader@.len() == 0);
            assert(all_loaded(r.version@.levels, r.table_loader@));
        }
        r
    }
}

/// Whether every table that the version names is loaded.
fn are_all_loaded(version: &Version, table_loader: &TableLoader) -> (r: bool)
    ensures
        r == all_loaded(version@.levels, table_loader@),
        levels_ordered(version@.levels),
{
    let ghost levels = version@.levels;
    let ghost tables = table_loader@;
    // reading a level shows that the levels are in order
    let _ = version.level_scopes(LEVEL_0);
    let mut depth: usize = 0;
    while depth < LEVEL_COUNT
        invariant
            depth <= LEVEL_COUNT,
            levels == version@.levels,
            tables == table_loader@,
            levels_ordered(levels),
            forall|d: int, i: int|
                0 <= d < depth && 0 <= i < levels[d].len() ==> has_table(
                    tables,
                    (#[trigger] levels[d][i]).gen,
                ),
        decreases LEVEL_COUNT - depth,
    {
        let scopes = version.level_scopes(depth);
        let mut i: usize = 0;
        while i < scopes.len()
            invariant
                i <= scopes.len(),
                depth < LEVEL_COUNT,
                levels == version@.levels,
                levels_ordered(levels),
                tables == table_loader@,
                scopes.deep_view() == levels[depth as int],
                forall|k: int|
                    0 <= k < i ==> has_table(tables, (#[trigger] levels[depth as int][k]).gen),
            decreases scopes.len() - i,
        {
            assert(scopes.deep_view()[i as int] == scopes[i as int]@);
            if !table_loader.contains(scopes[i].get_gen()) {
                assert(!has_table(tables, levels[depth as int][i as int].gen));
                return false;
            }
            i += 1;
        }
        depth += 1;
    }
    true
}

/// Whether `gen` is among `gens`.
fn has_gen_in(gens: &Vec<i64>, gen: i64) -> (r: bool)
    ensures
        r == gens@.contains(gen),
{
    let mut i: usize = 0;
    while i < gens.len()
        invariant
            i <= gens.len(),
            forall|k: int| 0 <= k < i ==> gens@[k] != gen,
        decreases gens.len() - i,
    {
        if gens[i] == gen {
            return true;
        }
        i += 1;
    }
    false
}

/// Whether no scope of the level with a gen among `gens` overlaps a scope
/// with another gen that stands before it in the level.
fn stay_apart(level: &Vec<Scope>, gens: &Vec<i64>) -> (r: bool)
    ensures
        r == scopes_hide_none(level.deep_view(), gens@),
{
    let ghost views = level.deep_view();
    let mut i: usize = 0;
    while i < level.len()
        invariant
            i <= level.len(),
            views == level.deep_view(),
            forall|a: int, b: int|
                0 <= b < a < i && gens@.contains(views[a].gen) && !gens@.contains(views[b].gen)
                    ==> !(#[trigger] views[a]).meets(#[trigger] views[b]),
        decreases level.len() - i,
    {
        assert(views[i as int] == level[i as int]@);
        if has_gen_in(gens, level[i].get_gen()) {
            let mut k: usize = 0;
            while k < i
                invariant
                    k <= i < level.len(),
                    views == level.deep_view(),
                    gens@.contains(views[i as int].gen),
                    forall|b: int|
                        0 <= b < k && !gens@.contains(views[b].gen) ==> !views[i as int].meets(
                            #[trigger] views[b],
                        ),
                decreases i - k,
            {
                assert(views[k as int] == level[k as int]@);
                if !has_gen_in(gens, level[k].get_gen()) && level[i].meet(&level[k]) {
                    assert(views[i as int].meets(views[k as int]));
                    assert(!scopes_hide_none(views, gens@));
                    return false;
                }
                k += 1;
            }
        }
        i += 1;
    }
    true
}

/// Whether no scope of the level with a gen outside `gens` overlaps one of
/// the scopes `taken`.
fn stay_clear_of(level: &Vec<Scope>, gens: &Vec<i64>, taken: &Vec<Scope>) -> (r: bool)
    ensures
        r == scopes_clear_of(level.deep_view(), gens@, taken.deep_view()),
{
    let ghost views = level.deep_view();
    let ghost others = taken.deep_view();
    let mut i: usize = 0;
    while i < level.len()
        invariant
            i <= level.len(),
            views == level.deep_view(),
            others == taken.deep_view(),
            forall|a: int, b: int|
                0 <= a < i && 0 <= b < taken.len() && !gens@.contains(views[a].gen) ==> !(
                #[trigger] views[a]).meets(#[trigger] others[b]),
        decreases level.len() - i,
    {
        assert(views[i as int] == level[i as int]@);
        if !has_gen_in(gens, level[i].get_gen()) {
            let mut k: usize = 0;
            while k < taken.len()
                invariant
                    k <= taken.len(),
                    i < level.len(),
                    views == level.deep_view(),
                    others == taken.deep_view(),
                    !gens@.contains(views[i as int].gen),
                    forall|b: int| 0 <= b < k ==> !views[i as int].meets(#[trigger] others[b]),
                decreases taken.len() - k,
            {
                assert(others[k as int] == taken[k as int]@);
                if level[i].meet(&taken[k]) {
                    assert(views[i as int].meets(others[k as int]));
                    assert(!scopes_clear_of(views, gens@, others));
                    return false;
                }
                k += 1;
            }
        }
        i += 1;
    }
    true
}

/// Whether no two of the scopes have the same gen.
fn name_gens_once(level: &Vec<Scope>) -> (r: bool)
    ensures
        r == gens_once(level.deep_view()),
{
    let ghost views = level.deep_view();
    let mut j: usize = 0;
    while j < level.len()
        invariant
            j <= level.len(),
            views == level.deep_view(),
            forall|a: int, b: int| 0 <= a < b < j ==> (#[trigger] views[a]).gen != (
            #[trigger] views[b]).gen,
        decreases level.len() - j,
    {
        assert(views[j as int] == level[j as int]@);
        let mut i: usize = 0;
        while i < j
            invariant
                i <= j < level.len(),
                views == level.deep_view(),
                forall|a: int| 0 <= a < i ==> (#[trigger] views[a]).gen != views[j as int].gen,
            decreases j - i,
        {
            assert(views[i as int] == level[i as int]@);
            if level[i].get_gen() == level[j].get_gen() {
                assert(views[i as int].gen == views[j as int].gen);
                return false;
            }
            i += 1;
        }
        j += 1;
    }
    true
}

/// Whether one of the levels of the version names the table with this gen.
fn is_gen_named(version: &Version, gen: i64) -> (r: bool)
    ensures
        r == exists|depth: int, i: int|
            0 <= depth < version@.levels.len() && 0 <= i < version@.levels[depth].len() && (
            #[trigger] version@.levels[depth][i]).gen == gen,
{
    let ghost levels = version@.levels;
    let _ = version.level_scopes(LEVEL_0);
    let mut depth: usize = 0;
    while depth < LEVEL_COUNT
        invariant
            depth <= LEVEL_COUNT,
            levels == version@.levels,
            levels.len() == LEVEL_COUNT,
            forall|d: int, i: int|
                0 <= d < depth && 0 <= i < levels[d].len() ==> (#[trigger] levels[d][i]).gen != gen,
        decreases LEVEL_COUNT - depth,
    {
        match version.index(depth, gen) {
            Some(place) => {
                assert(levels[depth as int][place as int].gen == gen);
                return true;
            },
            None => {},
        }
        depth += 1;
    }
    false
}

impl LsmStore {
    #[verifier::type_invariant]
    spec fn well_formed(&self) -> bool {
        self@.wf()
    }

    /// Takes the parts out, leaving those of an empty store.
    fn take_parts(&mut self) -> (r: Parts)
        ensures
            r.view_with(old(self).config@) == old(self)@,
            old(self)@.wf(),
            final(self).config == old(self).config,
    {
        proof {
            use_type_invariant(&*self);
        }
        let mut parts = Parts::empty();
        assert(parts.view_with(self.config@).wf());
        std::mem::swap(&mut self.parts, &mut parts);
        parts
    }

    /// Opens a store from what its directory held: the commands replayed
    /// from the write-ahead log, if the log had to be replayed, the edits of
    /// the version log, and the tables. The staging table is rebuilt from
    /// the replayed commands under one new sequence id, so that of the
    /// commands for one key the last one stays. The version is rebuilt from
    /// the edits. Tables with one gen twice, and a version that names a
    /// table which is not among the tables, are refused.
    pub fn open_with_config(
        config: Config,
        wal_replay: Option<Vec<CommandData>>,
        vec_log: Vec<VersionEdit>,
        tables: Vec<Table>,
    ) -> (r: Result<(LsmStore, CleanTag), KvsError>)
        ensures
            match r {
                Ok((store, tag)) => {
                    &&& store@.wf()
                    &&& store@.options == config@.options
                    &&& store@.dir_path == config@.dir_path
                    &&& store@.tables == tables.deep_view()
                    &&& successor(empty_version(), vec_log.deep_view()) == Some(store@.version)
                    &&& edits_count_tables(
                        empty_version(),
                        vec_log.deep_view(),
                        tables.deep_view(),
                    ) ==> store@.counted()
                    &&& forall|version: VersionView, later: Seq<VersionEditView>|
                        vec_log.deep_view() == base_edits(version) + later
                            && #[trigger] snapshot_log_counts(version, later, tables.deep_view())
                            ==> store@.counted()
                    &&& store@.mem.frozen is None
                    &&& match wal_replay {
                        Some(cmds) => exists|seq: i64|
                            store@.mem.active == #[trigger] replayed(cmds.deep_view(), seq),
                        None => store@.mem.active == Seq::<EntryView>::empty(),
                    }
                    &&& tag matches CleanTag::Add { version, gens }
                    &&& version == store@.version.version_num
                    &&& gens@ == released_gens(vec_log.deep_view(), store@.version.levels)
                },
                Err(e) => {
                    &&& e == KvsError::Internal
                    &&& match successor(empty_version(), vec_log.deep_view()) {
                        Some(version) => !gens_distinct(tables.deep_view()) || !all_loaded(
                            version.levels,
                            tables.deep_view(),
                        ),
                        None => true,
                    }
                },
            },
    {
        let mem_table = match wal_replay {
            None => MemTable::new(),
            Some(vec_data) => {
                // every recovered command gets the same new sequence id: no
                // version exists yet whose reading order it could disturb
                let create_seq_id = config.create_gen_lazy();
                MemTable::from_log(vec_data, create_seq_id)
            },
        };
        let (version, tag) = match Version::load_from_log(vec_log) {
            Ok(loaded) => loaded,
            Err(e) => {
                return Err(e);
            },
        };
        let table_loader = match TableLoader::from_tables(tables) {
            Ok(loader) => loader,
            Err(e) => {
                return Err(e);
            },
        };
        if !are_all_loaded(&version, &table_loader) {
            return Err(KvsError::Internal);
        }
        proof {
            let edits = vec_log.deep_view();
            let levels = empty_version().levels;
            assert(levels[0].len() == 0 && levels[1].len() == 0 && levels[2].len() == 0
                && levels[3].len() == 0 && levels[4].len() == 0 && levels[5].len() == 0
                && levels[6].len() == 0);
            if edits_count_tables(empty_version(), edits, table_loader@) {
                lemma_successor_counts_tables(empty_version(), edits, table_loader@);
            }
            assert forall|written: VersionView, later: Seq<VersionEditView>|
                edits == base_edits(written) + later && #[trigger] snapshot_log_counts(
                    written,
                    later,
                    table_loader@,
                ) implies counts_tables(version@, table_loader@) by {
                lemma_snapshot_log_counts_tables(written, later, table_loader@);
            }
        }
        Ok((LsmStore { parts: Parts { mem_table, version, table_loader }, config }, tag))
    }

    /// The configuration of the store.
    pub fn config(&self) -> (r: &Config)
        ensures
            r@.options == self@.options,
            r@.dir_path == self@.dir_path,
    {
        &self.config
    }

    /// The current version.
    pub fn version(&self) -> (r: &Version)
        ensures
            r@ == self@.version,
    {
        &self.parts.version
    }

    /// The staging table.
    pub fn mem_table(&self) -> (r: &MemTable)
        ensures
            r@ == self@.mem,
    {
        &self.parts.mem_table
    }

    /// The tables loaded.
    pub fn table_loader(&self) -> (r: &TableLoader)
        ensures
            r@ == self@.tables,
    {
        &self.parts.table_loader
    }

    /// Whether writes go to the write-ahead log.
    pub fn is_enable_wal(&self) -> (r: bool)
        ensures
            r == self@.options.wal_enable,
    {
        self.config.options().wal_enable
    }

    /// Whether a write returns before its log record is written.
    pub fn is_async_wal(&self) -> (r: bool)
        ensures
            r == self@.options.wal_async_put_enable,
    {
        self.config.options().wal_async_put_enable
    }

    /// How a command is to reach the write-ahead log.
    pub fn wal_put(&self, wal_write: bool) -> (r: WalPut)
        ensures
            r == wal_put_of(self@.options, wal_write),
    {
        if self.is_enable_wal() && wal_write {
            if self.is_async_wal() {
                WalPut::Async
            } else {
                WalPut::Sync
            }
        } else {
            WalPut::Skip
        }
    }

    /// Where the gen of the next table comes from: from the write-ahead log
    /// where it is switched on, else from the generator.
    pub fn create_gen(&self) -> (r: GenSource)
        ensures
            self@.options.wal_enable ==> r == GenSource::WalSwitch,
            !self@.options.wal_enable ==> r is Fresh,
    {
        if self.is_enable_wal() {
            GenSource::WalSwitch
        } else {
            GenSource::Fresh(self.config.create_gen_lazy())
        }
    }

    /// Puts a command into the staging table under a sequence id taken from
    /// the generator. Where the active run is full after that, the staging
    /// table is swapped, and a run that was frozen thereby is handed back
    /// as a minor compaction.
    pub fn append_cmd_data(&mut self, cmd: CommandData, wal_write: bool) -> (r: Appended)
        ensures
            old(self)@.tidy() ==> final(self)@.tidy(),
            final(self)@.wf(),
            exists|seq: i64|
                {
                    &&& final(self)@ == #[trigger] old(self)@.written(cmd@, seq)
                    &&& r.minor is Some <==> old(self)@.sets_off_minor(cmd@, seq)
                },
            forall|key: Seq<u8>|
                #[trigger] final(self)@.found(key) == if key == cmd@.key() {
                    Some(cmd@.value())
                } else {
                    old(self)@.found(key)
                },
            r.wal == wal_put_of(old(self)@.options, wal_write),
            r.minor matches Some(job) ==> is_minor_job(job, final(self)@, true),
    {
        let wal = self.wal_put(wal_write);
        let ghost before = self@;
        let mut parts = self.take_parts();
        let seq = self.config.create_gen_lazy();
        let threshold = self.config.options().minor_threshold_with_len;
        let exceeded = parts.mem_table.insert_data(cmd, seq, threshold);
        proof {
            lemma_append_found(before, cmd@, seq, Seq::empty());
        }
        self.parts = parts;
        assert(self@ == before.appended(cmd@, seq));
        let minor = if exceeded {
            self.minor_compaction()
        } else {
            None
        };
        assert(self@ == before.written(cmd@, seq));
        proof {
            assert forall|key: Seq<u8>| #[trigger] self@.found(key) == if key == cmd@.key() {
                Some(cmd@.value())
            } else {
                before.found(key)
            } by {
                lemma_written_found(before, cmd@, seq, key);
            }
        }
        Appended { wal, minor }
    }

    /// Writes `value` under `key`.
    pub fn set(&mut self, key: &[u8], value: Vec<u8>) -> (r: Appended)
        ensures
            old(self)@.tidy() ==> final(self)@.tidy(),
            final(self)@.wf(),
            exists|seq: i64|
                {
                    &&& final(self)@ == #[trigger] old(self)@.written(
                        CommandView::Put { key: key@, value: value@ },
                        seq,
                    )
                    &&& r.minor is Some <==> old(self)@.sets_off_minor(
                        CommandView::Put { key: key@, value: value@ },
                        seq,
                    )
                },
            forall|other: Seq<u8>|
                #[trigger] final(self)@.found(other) == if other == key@ {
                    Some(value@)
                } else {
                    old(self)@.found(other)
                },
            r.wal == wal_put_of(old(self)@.options, true),
            r.minor matches Some(job) ==> is_minor_job(job, final(self)@, true),
    {
        let key = slice_to_vec(key);
        self.append_cmd_data(CommandData::set(key, value), true)
    }

    /// What a reader gets for a key: the value that the staging table
    /// holds, else the value that the tables of the current version hold;
    /// nothing where that value is empty, as it is after a removal.
    pub fn get(&self, key: &[u8]) -> (r: Option<Vec<u8>>)
        ensures
            match r {
                Some(value) => self@.get(key@) == Some(value@),
                None => self@.get(key@) is None,
            },
    {
        let found = match self.parts.mem_table.find(key) {
            Some(value) => Some(value),
            None => self.parts.version.query(&self.parts.table_loader, key),
        };
        match found {
            Some(value) => if value.len() == 0 {
                None
            } else {
                Some(value)
            },
            None => None,
        }
    }

    /// What the staging table alone answers a reader: nothing where it does
    /// not hold the key, so that the tables have to be asked; else the value
    /// that the reader gets, which is none where the value held is empty.
    pub fn get_staged(&self, key: &[u8]) -> (r: Option<Option<Vec<u8>>>)
        ensures
            match r {
                Some(Some(value)) => self@.mem.find(key@) is Some && self@.get(key@) == Some(
                    value@,
                ),
                Some(None) => self@.mem.find(key@) is Some && self@.get(key@) is None,
                None => self@.mem.find(key@) is None,
            },
    {
        match self.parts.mem_table.find(key) {
            Some(value) => if value.len() == 0 {
                Some(None)
            } else {
                Some(Some(value))
            },
            None => None,
        }
    }

    /// Removes `key`. Where a reader gets nothing for the key, the removal
    /// is refused and the store stays as it is.
    pub fn remove(&mut self, key: &[u8]) -> (r: Result<Appended, KvsError>)
        ensures
            old(self)@.tidy() ==> final(self)@.tidy(),
            final(self)@.wf(),
            match r {
                Ok(done) => {
                    &&& old(self)@.get(key@) is Some
                    &&& exists|seq: i64|
                        {
                            &&& final(self)@ == #[trigger] old(self)@.written(
                                CommandView::Remove { key: key@ },
                                seq,
                            )
                            &&& done.minor is Some <==> old(self)@.sets_off_minor(
                                CommandView::Remove { key: key@ },
                                seq,
                            )
                        }
                    &&& forall|other: Seq<u8>|
                        #[trigger] final(self)@.found(other) == if other == key@ {
                            Some(Seq::<u8>::empty())
                        } else {
                            old(self)@.found(other)
                        }
                    &&& done.wal == wal_put_of(old(self)@.options, true)
                    &&& done.minor matches Some(job) ==> is_minor_job(job, final(self)@, true)
                },
                Err(e) => {
                    &&& e == KvsError::KeyNotFound
                    &&& old(self)@.get(key@) is None
                    &&& final(self)@ == old(self)@
                },
            },
    {
        proof {
            use_type_invariant(&*self);
        }
        match self.get(key) {
            Some(_) => {
                let key = slice_to_vec(key);
                Ok(self.append_cmd_data(CommandData::remove(key), true))
            },
            None => Err(KvsError::KeyNotFound),
        }
    }

    /// Swaps the staging table and describes the frozen run as a job.
    fn swap_for_job(&mut self, enable_major: bool) -> (r: Option<MinorCompaction>)
        ensures
            old(self)@.tidy() ==> final(self)@.tidy(),
            final(self)@ == old(self)@.swapped(),
            final(self)@.wf(),
            r is Some <==> final(self)@.mem.frozen is Some,
            r matches Some(job) ==> is_minor_job(job, final(self)@, enable_major),
    {
        let ghost before = self@;
        let mut parts = self.take_parts();
        let swapped = parts.mem_table.table_swap_and_sort();
        proof {
            lemma_swap_keeps_found(before, Seq::empty());
        }
        self.parts = parts;
        match swapped {
            Some((values, last_seq_id)) => {
                let gen = self.create_gen();
                Some(MinorCompaction { values, last_seq_id, gen, enable_major })
            },
            None => None,
        }
    }

    /// Sets off a minor compaction if none is under way: where no run is
    /// frozen and the active run is not empty, the active run is frozen and
    /// handed back as the job. Level 0 is to be compacted after the job if
    /// it is full then.
    pub fn minor_compaction(&mut self) -> (r: Option<MinorCompaction>)
        ensures
            old(self)@.tidy() ==> final(self)@.tidy(),
            final(self)@ == old(self)@.swapped(),
            final(self)@.wf(),
            r is Some <==> old(self)@.can_swap(),
            r matches Some(job) ==> is_minor_job(job, final(self)@, true),
    {
        proof {
            use_type_invariant(&*self);
        }
        if self.parts.mem_table.has_frozen() {
            return None;
        }
        self.swap_for_job(true)
    }

    /// The minor compaction that a flush has to carry out: the active run
    /// is frozen if no run is frozen and it is not empty, and the run that
    /// is frozen after that is handed back as the job. Level 0 is to be
    /// compacted after the job if it is full then, unless the store is
    /// being dropped.
    pub fn minor_compaction_sync(&mut self, is_drop: bool) -> (r: Option<MinorCompaction>)
        ensures
            old(self)@.tidy() ==> final(self)@.tidy(),
            final(self)@ == old(self)@.swapped(),
            final(self)@.wf(),
            r is Some <==> final(self)@.mem.frozen is Some,
            r matches Some(job) ==> is_minor_job(job, final(self)@, !is_drop),
    {
        self.swap_for_job(!is_drop)
    }

    /// What a flush has to carry out: a minor compaction, if the active run
    /// is not empty.
    pub fn flush_(&mut self, is_drop: bool) -> (r: Option<MinorCompaction>)
        ensures
            old(self)@.tidy() ==> final(self)@.tidy(),
            final(self)@ == old(self)@.swapped(),
            final(self)@.wf(),
            r is Some <==> old(self)@.mem.active.len() > 0,
            r matches Some(job) ==> is_minor_job(job, final(self)@, !is_drop),
    {
        proof {
            use_type_invariant(&*self);
        }
        if !self.parts.mem_table.is_empty() {
            self.minor_compaction_sync(is_drop)
        } else {
            None
        }
    }

    /// What a flush has to carry out while the store stays open.
    pub fn flush(&mut self) -> (r: Option<MinorCompaction>)
        ensures
            old(self)@.tidy() ==> final(self)@.tidy(),
            final(self)@ == old(self)@.swapped(),
            final(self)@.wf(),
            r is Some <==> old(self)@.mem.active.len() > 0,
            r matches Some(job) ==> is_minor_job(job, final(self)@, true),
    {
        self.flush_(false)
    }

    /// The edits that `install_minor` applies for this gen and file size,
    /// so that they can be logged before; none where no run is frozen.
    pub fn minor_edits(&self, gen: i64, size_of_disk: u64) -> (r: Option<Vec<VersionEdit>>)
        ensures
            match r {
                Some(edits) => self@.mem.frozen is Some && edits.deep_view() == seq![
                    minor_edit(self@.frozen_table(gen, size_of_disk)),
                ],
                None => self@.mem.frozen is None,
            },
    {
        let (first, last) = match self.parts.mem_table.frozen_range() {
            Some(range) => range,
            None => {
                return None;
            },
        };
        let len = match self.parts.mem_table.frozen_len() {
            Some(len) => len,
            None => {
                return None;
            },
        };
        let mut scopes: Vec<crate::scope::Scope> = Vec::new();
        scopes.push(crate::scope::Scope::from_range(gen, first, last));
        let mut edits: Vec<VersionEdit> = Vec::new();
        edits.push(
            VersionEdit::NewFile(
                (scopes, LEVEL_0),
                0,
                crate::version::meta::TableMeta { size_of_disk, len },
            ),
        );
        proof {
            let table = self@.frozen_table(gen, size_of_disk);
            assert(edits.deep_view() =~= seq![minor_edit(table)]) by {
                assert(edits@[0]@ == minor_edit(table)) by {
                    assert(scopes.deep_view() =~= seq![table.scope()]);
                }
            }
        }
        Some(edits)
    }

    /// Installs the frozen run as the table with this gen, whose file has
    /// this size: the table joins the loaded tables, its scope goes to the
    /// end of level 0, and the frozen run is dropped. No reader sees a
    /// difference. The installation is refused, and the store stays as it
    /// is, where no run is frozen, where a table with the gen is already
    /// loaded, or where the version has no successor by the edit.
    pub fn install_minor(&mut self, gen: i64, size_of_disk: u64, enable_major: bool) -> (r: Result<
        Installed,
        KvsError,
    >)
        ensures
            old(self)@.tidy() ==> final(self)@.tidy(),
            final(self)@.wf(),
            match r {
                Ok(done) => {
                    &&& old(self)@.can_install(gen, size_of_disk)
                    &&& final(self)@ == old(self)@.installed(gen, size_of_disk)
                    &&& forall|key: Seq<u8>| final(self)@.get(key) == old(self)@.get(key)
                    &&& done.clean_tag matches CleanTag::Add { version, gens }
                    &&& version == final(self)@.version.version_num
                    &&& gens@.len() == 0
                    &&& done.compact == if enable_major && final(self)@.version.levels[0].len()
                        >= level_capacity(final(self)@.options, 0) {
                        Some(LEVEL_0)
                    } else {
                        None
                    }
                    &&& counts_tables(old(self)@.version, old(self)@.tables) ==> counts_tables(
                        final(self)@.version,
                        final(self)@.tables,
                    )
                },
                Err(e) => {
                    &&& e == KvsError::Internal
                    &&& !old(self)@.can_install(gen, size_of_disk)
                    &&& final(self)@ == old(self)@
                },
            },
    {
        proof {
            use_type_invariant(&*self);
        }
        let ghost before = self@;
        let frozen_len = match self.parts.mem_table.frozen_len() {
            Some(len) => len,
            None => {
                return Err(KvsError::Internal);
            },
        };
        if self.parts.table_loader.contains(gen) {
            return Err(KvsError::Internal);
        }
        let ghost table_view = before.frozen_table(gen, size_of_disk);
        let meta = crate::version::meta::TableMeta { size_of_disk, len: frozen_len };
        proof {
            lemma_minor_successor_exists(before.version, table_view);
        }
        if self.parts.version.version_num() == u64::MAX || self.parts.version.meta().added(
            &meta,
        ).is_none() {
            return Err(KvsError::Internal);
        }
        proof {
            lemma_minor_successor(before.version, table_view);
            assert forall|key: Seq<u8>| before.installed(gen, size_of_disk).get(key) == before.get(
                key,
            ) by {
                lemma_install_keeps_found(before, gen, size_of_disk, key);
            }
            lemma_install_keeps_found(before, gen, size_of_disk, Seq::empty());
            if counts_tables(before.version, before.tables) {
                lemma_install_keeps_count(before, gen, size_of_disk);
            }
            if before.tidy() {
                lemma_op_keeps_tidy(before, StoreOp::Install { gen, size_of_disk });
            }
        }
        let mut parts = self.take_parts();
        let entries = match parts.mem_table.take_frozen() {
            Some(entries) => entries,
            None => {
                // there is a frozen run: its length was read above
                self.parts = parts;
                return Err(KvsError::Internal);
            },
        };
        let table = match Table::new(gen, entries, size_of_disk) {
            Ok(table) => table,
            Err(e) => {
                // the frozen run is a run and not empty
                self.parts = parts;
                return Err(e);
            },
        };
        assert(table@ == table_view);
        let scope = table.scope();
        let inserted = parts.table_loader.insert(table);
        let mut scopes: Vec<crate::scope::Scope> = Vec::new();
        scopes.push(scope);
        assert(scopes.deep_view() =~= seq![table_view.scope()]);
        let mut edits: Vec<VersionEdit> = Vec::new();
        edits.push(VersionEdit::NewFile((scopes, LEVEL_0), 0, meta));
        proof {
            let edit_views = seq![minor_edit(table_view)];
            assert(edits.deep_view() =~= edit_views);
            assert(edit_views.drop_last().len() == 0);
            assert(deleted_gens(edit_views.drop_last()) =~= Seq::<i64>::empty());
            assert(edit_views.last() is NewFile);
            assert(deleted_gens(edit_views) =~= Seq::<i64>::empty());
            assert forall|levels: Seq<Seq<crate::scope::ScopeView>>|
                #[trigger] released_gens(edit_views, levels) =~= Seq::<i64>::empty() by {
                reveal(Seq::filter);
            }
        }
        let applied = parts.version.apply(edits);
        match applied {
            Ok(clean_tag) => {
                let compact = if enable_major && parts.version.is_threshold_exceeded_major(
                    &self.config,
                    LEVEL_0,
                ) {
                    Some(LEVEL_0)
                } else {
                    None
                };
                self.parts = parts;
                Ok(Installed { clean_tag, compact })
            },
            Err(e) => {
                // the version has a successor by the edit: that was tested
                self.parts = parts;
                Err(e)
            },
        }
    }

    /// The choice of tables for a major compaction of `level`: which tables
    /// of the level and of the next level are to be merged, and where the
    /// result goes. There is none where the level has nothing to compact.
    pub fn major_compaction_sync(&self, level: usize) -> (r: Option<MajorCompaction>)
        ensures
            match r {
                Some(plan) => major_plan(
                    self@.version.levels,
                    self@.options.major_select_file_size,
                    level,
                ) == Some(plan@),
                None => major_plan(
                    self@.version.levels,
                    self@.options.major_select_file_size,
                    level,
                ) is None,
            },
            self@.tidy() ==> (r matches Some(plan) ==> takes_whole_tables(
                self@.version.levels,
                plan@,
            )),
    {
        let plan = plan_major(
            &self.parts.version,
            self.config.options().major_select_file_size,
            level,
        );
        proof {
            if self@.tidy() && plan is Some {
                lemma_tidy_choice_takes_whole_tables(
                    self@,
                    self@.options.major_select_file_size,
                    level,
                );
            }
        }
        plan
    }

    /// The choice for a major compaction of `level` that hides no older
    /// table: the choice that `major_compaction_sync` makes where the
    /// tables that it takes overlap no older table that stays, and else
    /// the choice that takes every table of the level. In a tidy store a
    /// compaction by this choice changes nothing for a reader.
    pub fn major_compaction_alone(&self, level: usize) -> (r: Option<MajorCompaction>)
        ensures
            r is Some <==> major_plan(
                self@.version.levels,
                self@.options.major_select_file_size,
                level,
            ) is Some,
            r matches Some(plan) ==> Some(plan@) == ({
                let planned = major_plan(
                    self@.version.levels,
                    self@.options.major_select_file_size,
                    level,
                );
                if scopes_alone(self@.version.levels, planned.unwrap()) {
                    planned
                } else {
                    major_plan(self@.version.levels, usize::MAX, level)
                }
            }),
            self@.tidy() ==> (r matches Some(plan) ==> takes_whole_tables(
                self@.version.levels,
                plan@,
            ) && forall|key: Seq<u8>|
                chosen_alone(self@.version.levels, self@.tables, plan@, key)),
    {
        let planned = match self.major_compaction_sync(level) {
            Some(planned) => planned,
            None => {
                return None;
            },
        };
        if self.is_alone(&planned) {
            return Some(planned);
        }
        let whole = plan_major(&self.parts.version, usize::MAX, level);
        let scopes = self.parts.version.level_scopes(level);
        proof {
            let levels = self@.version.levels;
            assert(scopes.deep_view().len() == scopes.len());
            if self@.tidy() {
                lemma_tidy_choice_takes_whole_tables(self@, usize::MAX, level);
                assert forall|key: Seq<u8>|
                    chosen_alone(levels, self@.tables, whole.unwrap()@, key) by {
                    lemma_whole_level_choice_is_sound(levels, self@.tables, level, key);
                }
            }
        }
        whole
    }

    /// Merges the tables that a major compaction has chosen and cuts the
    /// result into the runs of the tables to write, each of about
    /// `sst_file_size` bytes. Removals that hide nothing below the next
    /// level are left out. Nothing is to be written for a choice that names
    /// the last level.
    pub fn merge_major(&self, plan: &MajorCompaction) -> (r: Vec<Vec<Entry>>)
        ensures
            r.deep_view() == if plan.level + 2 <= LEVEL_COUNT {
                major_output(
                    self@.version.levels,
                    self@.tables,
                    plan@,
                    self@.options.sst_file_size,
                )
            } else {
                Seq::empty()
            },
    {
        if plan.level >= LEVEL_COUNT - 1 {
            let none: Vec<Vec<Entry>> = Vec::new();
            assert(none.deep_view() =~= Seq::<Seq<EntryView>>::empty());
            return none;
        }
        merge_major(
            &self.parts.version,
            &self.parts.table_loader,
            plan,
            self.config.options().sst_file_size,
        )
    }

    /// Installs the result of a major compaction: the tables that were
    /// merged leave their levels, and the new tables, which must have been
    /// loaded and are named by their gens, enter the next level at the
    /// place of the choice. Answers the message for the cleaner and the
    /// level that is to be compacted next, if the next level is full now.
    /// Where there are no edits for the choice, or the version has no
    /// successor by them, the installation is refused and the store stays
    /// as it is.
    pub fn install_major(&mut self, plan: &MajorCompaction, new_gens: &Vec<i64>) -> (r: Result<
        Installed,
        KvsError,
    >)
        ensures
            old(self)@.tidy() ==> final(self)@.tidy(),
            old(self)@.counted() && takes_whole_tables(old(self)@.version.levels, plan@)
                ==> final(self)@.counted(),
            old(self)@.tidy() && takes_whole_tables(old(self)@.version.levels, plan@)
                && holds_output(
                old(self)@.version.levels,
                old(self)@.tables,
                plan@,
                new_gens@,
                old(self)@.options.sst_file_size,
            ) && (forall|key: Seq<u8>|
                chosen_alone(old(self)@.version.levels, old(self)@.tables, plan@, key))
                ==> forall|key: Seq<u8>| final(self)@.get(key) == old(self)@.get(key),
            final(self)@.wf(),
            match r {
                Ok(done) => {
                    &&& old(self)@.can_compact(plan@, new_gens@)
                    &&& final(self)@ == old(self)@.compacted(plan@, new_gens@)
                    &&& done.clean_tag matches CleanTag::Add { version, gens }
                    &&& version == final(self)@.version.version_num
                    &&& gens@ == released_gens(
                        major_edits(plan@, new_gens@, old(self)@.tables).unwrap(),
                        final(self)@.version.levels,
                    )
                    &&& forall|i: int|
                        0 <= i < gens@.len() ==> !final(self)@.names_gen(#[trigger] gens@[i])
                    &&& done.compact == ({
                        let after = final(self)@;
                        if plan.level + 2 < LEVEL_COUNT && after.version.levels[plan.level + 1].len()
                            >= level_capacity(after.options, (plan.level + 1) as nat) {
                            Some((plan.level + 1) as usize)
                        } else {
                            None
                        }
                    })
                },
                Err(e) => {
                    &&& e == KvsError::Internal
                    &&& !old(self)@.can_compact(plan@, new_gens@)
                    &&& final(self)@ == old(self)@
                },
            },
    {
        proof {
            use_type_invariant(&*self);
        }
        let ghost before = self@;
        proof {
            if before.tidy() {
                lemma_op_keeps_tidy(
                    before,
                    StoreOp::Compact { plan: plan@, new_gens: new_gens@ },
                );
            }
            if before.counted() && takes_whole_tables(before.version.levels, plan@) {
                lemma_op_keeps_count(
                    before,
                    StoreOp::Compact { plan: plan@, new_gens: new_gens@ },
                );
            }
            if before.tidy() && before.can_compact(plan@, new_gens@) && takes_whole_tables(
                before.version.levels,
                plan@,
            ) && holds_output(
                before.version.levels,
                before.tables,
                plan@,
                new_gens@,
                before.options.sst_file_size,
            ) && (forall|key: Seq<u8>|
                chosen_alone(before.version.levels, before.tables, plan@, key)) {
                assert forall|key: Seq<u8>|
                    before.compacted(plan@, new_gens@).get(key) == before.get(key) by {
                    lemma_major_keeps_get(before, plan@, new_gens@, key);
                }
            }
        }
        let edits = match edits_for_major(plan, new_gens, &self.parts.table_loader) {
            Some(edits) => edits,
            None => {
                return Err(KvsError::Internal);
            },
        };
        let clean_tag = match self.install(edits) {
            Ok(tag) => tag,
            Err(e) => {
                return Err(e);
            },
        };
        let next = plan.level + 1;
        let compact = if next + 1 < LEVEL_COUNT && self.parts.version.is_threshold_exceeded_major(
            &self.config,
            next,
        ) {
            Some(next)
        } else {
            None
        };
        Ok(Installed { clean_tag, compact })
    }

    /// Takes a table in, for edits that are about to name it. A table whose
    /// gen is already loaded is refused.
    pub fn load_table(&mut self, table: Table) -> (r: Result<(), KvsError>)
        ensures
            old(self)@.tidy() ==> final(self)@.tidy(),
            old(self)@.counted() ==> final(self)@.counted(),
            final(self)@.wf(),
            match r {
                Ok(_) => {
                    &&& !has_table(old(self)@.tables, table@.gen)
                    &&& table@.wf()
                    &&& final(self)@ == old(self)@.loaded(table@)
                },
                Err(e) => {
                    &&& e == KvsError::Internal
                    &&& has_table(old(self)@.tables, table@.gen)
                    &&& final(self)@ == old(self)@
                },
            },
    {
        let ghost before = self@;
        let mut parts = self.take_parts();
        let r = parts.table_loader.insert(table);
        proof {
            if r is Ok {
                let after = before.tables.push(table@);
                assert(after[before.tables.len() as int].wf());
                if before.tidy() {
                    lemma_op_keeps_tidy(before, StoreOp::Load { table: table@ });
                }
                if before.counted() {
                    lemma_op_keeps_count(before, StoreOp::Load { table: table@ });
                }
                assert forall|depth: int, i: int|
                    0 <= depth < before.version.levels.len() && 0 <= i
                        < before.version.levels[depth].len() implies has_table(
                    after,
                    (#[trigger] before.version.levels[depth][i]).gen,
                ) by {
                    let gen = before.version.levels[depth][i].gen;
                    assert(has_table(before.tables, gen));
                    let at = choose|at: int|
                        0 <= at < before.tables.len() && (#[trigger] before.tables[at]).gen == gen;
                    assert(after[at].gen == gen);
                }
            }
        }
        self.parts = parts;
        r
    }

    /// Lets the table with this gen go, once its file is to be deleted, and
    /// answers whether it was loaded. A table that the current version
    /// names is never let go: the request is refused.
    pub fn unload_table(&mut self, gen: i64) -> (r: Result<bool, KvsError>)
        ensures
            old(self)@.tidy() ==> final(self)@.tidy(),
            old(self)@.counted() ==> final(self)@.counted(),
            final(self)@.wf(),
            final(self)@.mem == old(self)@.mem,
            final(self)@.version == old(self)@.version,
            final(self)@.options == old(self)@.options,
            final(self)@.dir_path == old(self)@.dir_path,
            forall|key: Seq<u8>| final(self)@.get(key) == old(self)@.get(key),
            match r {
                Ok(removed) => {
                    &&& !old(self)@.names_gen(gen)
                    &&& final(self)@ == old(self)@.unloaded(gen)
                    &&& removed == has_table(old(self)@.tables, gen)
                    &&& !has_table(final(self)@.tables, gen)
                    &&& forall|other: i64|
                        other != gen ==> table_of(final(self)@.tables, other) == table_of(
                            old(self)@.tables,
                            other,
                        )
                },
                Err(e) => {
                    &&& e == KvsError::Internal
                    &&& old(self)@.names_gen(gen)
                    &&& final(self)@ == old(self)@
                },
            },
    {
        proof {
            use_type_invariant(&*self);
        }
        if is_gen_named(&self.parts.version, gen) {
            return Err(KvsError::Internal);
        }
        let ghost before = self@;
        let mut parts = self.take_parts();
        let removed = parts.table_loader.remove(gen);
        proof {
            let after = parts.view_with(self.config@);
            assert forall|depth: int, i: int|
                0 <= depth < before.version.levels.len() && 0 <= i
                    < before.version.levels[depth].len() implies has_table(
                after.tables,
                (#[trigger] before.version.levels[depth][i]).gen,
            ) by {
                assert(has_table(before.tables, before.version.levels[depth][i].gen));
            }
            assert forall|key: Seq<u8>| after.get(key) == before.get(key) by {
                crate::store_model::lemma_same_tables_same_found(before, after, key);
            }
            if before.tidy() {
                lemma_op_keeps_tidy(before, StoreOp::Unload { gen });
            }
            if before.counted() {
                lemma_op_keeps_count(before, StoreOp::Unload { gen });
            }
        }
        self.parts = parts;
        Ok(removed)
    }

    /// Whether `install` would take the edits: the version has a successor
    /// by them, and every table that the successor names is loaded.
    pub fn can_install(&self, vec_version_edit: &Vec<VersionEdit>) -> (r: bool)
        ensures
            r == (successor(self@.version, vec_version_edit.deep_view()) matches Some(next)
                && all_loaded(next.levels, self@.tables)),
    {
        match self.parts.version.successor_by(vec_version_edit) {
            Some(next) => are_all_loaded(&next, &self.parts.table_loader),
            None => false,
        }
    }

    /// Makes the successor of the current version by the edits the current
    /// version, and returns the message for the cleaner. The tables that
    /// the edits name must have been loaded before. Edits by which the
    /// version has no successor, or after which it would name a table that
    /// is not loaded, are refused, and the store stays as it is.
    pub fn install(&mut self, vec_version_edit: Vec<VersionEdit>) -> (r: Result<CleanTag, KvsError>)
        ensures
            final(self)@.wf(),
            old(self)@.counted() && edits_count_tables(
                old(self)@.version,
                vec_version_edit.deep_view(),
                old(self)@.tables,
            ) ==> final(self)@.counted(),
            match r {
                Ok(tag) => {
                    &&& successor(old(self)@.version, vec_version_edit.deep_view()) == Some(
                        final(self)@.version,
                    )
                    &&& final(self)@ == (StoreView {
                        version: final(self)@.version,
                        ..old(self)@
                    })
                    &&& tag matches CleanTag::Add { version, gens }
                    &&& version == final(self)@.version.version_num
                    &&& gens@ == released_gens(
                        vec_version_edit.deep_view(),
                        final(self)@.version.levels,
                    )
                    &&& forall|i: int|
                        0 <= i < gens@.len() ==> !final(self)@.names_gen(#[trigger] gens@[i])
                },
                Err(e) => {
                    &&& e == KvsError::Internal
                    &&& final(self)@ == old(self)@
                    &&& match successor(old(self)@.version, vec_version_edit.deep_view()) {
                        Some(next) => !all_loaded(next.levels, old(self)@.tables),
                        None => true,
                    }
                },
            },
    {
        proof {
            use_type_invariant(&*self);
        }
        let mut next = self.parts.version.clone();
        let ghost before = self@;
        let ghost edits = vec_version_edit.deep_view();
        let tag = match next.apply(vec_version_edit) {
            Ok(tag) => tag,
            Err(e) => {
                return Err(e);
            },
        };
        if !are_all_loaded(&next, &self.parts.table_loader) {
            return Err(KvsError::Internal);
        }
        proof {
            if before.counted() && edits_count_tables(before.version, edits, before.tables) {
                lemma_successor_counts_tables(before.version, edits, before.tables);
            }
        }
        let mut parts = self.take_parts();
        parts.version = next;
        self.parts = parts;
        Ok(tag)
    }

    /// Whether every scope that the version names is the scope of its
    /// table, and level 0 names no table twice. Of a store for which this
    /// holds, the laws on what a reader gets speak; the operations of the
    /// store keep it so, but for edits that are installed as they come.
    pub fn is_tidy(&self) -> (r: bool)
        ensures
            r == self@.tidy(),
    {
        proof {
            use_type_invariant(self);
        }
        let ghost levels = self@.version.levels;
        let ghost tables = self@.tables;
        if !name_gens_once(self.parts.version.level_scopes(LEVEL_0)) {
            return false;
        }
        let mut depth: usize = 0;
        while depth < LEVEL_COUNT
            invariant
                depth <= LEVEL_COUNT,
                self@.wf(),
                levels == self@.version.levels,
                tables == self@.tables,
                forall|d: int| 0 <= d < depth ==> level_fits(#[trigger] levels[d], tables),
            decreases LEVEL_COUNT - depth,
        {
            let scopes = self.parts.version.level_scopes(depth);
            let mut i: usize = 0;
            while i < scopes.len()
                invariant
                    i <= scopes.len(),
                    depth < LEVEL_COUNT,
                    self@.wf(),
                    levels == self@.version.levels,
                    tables == self@.tables,
                    scopes.deep_view() == levels[depth as int],
                    forall|k: int| 0 <= k < i ==> fits(#[trigger] levels[depth as int][k], tables),
                decreases scopes.len() - i,
            {
                let scope = &scopes[i];
                assert(scopes.deep_view()[i as int] == scope@);
                let fitting = match self.parts.table_loader.get(scope.get_gen()) {
                    Some(table) => {
                        let own = table.scope();
                        match (
                            key_order(own.start(), scope.start()),
                            key_order(own.end(), scope.end()),
                        ) {
                            (KeyOrder::Equal, KeyOrder::Equal) => true,
                            _ => false,
                        }
                    },
                    None => false,
                };
                if !fitting {
                    assert(!fits(levels[depth as int][i as int], tables));
                    assert(!level_fits(levels[depth as int], tables));
                    return false;
                }
                i += 1;
            }
            depth += 1;
        }
        true
    }

    /// Whether the tables that a choice takes overlap no older table that
    /// stays: no table that stays in the level of the choice and stands
    /// before a table taken from it overlaps that table, and no table that
    /// stays in the next level overlaps a table taken from the level of
    /// the choice. Newer tables that stay may overlap what is taken: they
    /// are read first before and after. Where this holds, the major
    /// compaction changes nothing for a reader.
    pub fn is_alone(&self, plan: &MajorCompaction) -> (r: bool)
        ensures
            r == scopes_alone(self@.version.levels, plan@),
            r ==> forall|key: Seq<u8>|
                chosen_alone(self@.version.levels, self@.tables, plan@, key),
    {
        if plan.level >= LEVEL_COUNT - 1 {
            return false;
        }
        let above = self.parts.version.level_scopes(plan.level);
        let below = self.parts.version.level_scopes(plan.level + 1);
        let upper_gens = gens_in(&plan.upper);
        let lower_gens = gens_in(&plan.lower);
        let alone = stay_apart(above, &upper_gens) && stay_clear_of(
            below,
            &lower_gens,
            &plan.upper,
        );
        proof {
            if alone {
                assert forall|key: Seq<u8>|
                    chosen_alone(self@.version.levels, self@.tables, plan@, key) by {
                    lemma_scopes_alone_tables_alone(
                        self@.version.levels,
                        self@.tables,
                        plan@,
                        key,
                    );
                }
            }
        }
        alone
    }

    /// Whether the counters of the current version are what its tables
    /// count: the bytes on disk the sum of their file sizes, the entries
    /// the sum of their numbers of entries. The operations of the store
    /// keep it so, but for edits that are installed as they come; a store
    /// that was opened is as its version log and its tables made it.
    pub fn is_counted(&self) -> (r: bool)
        ensures
            r == self@.counted(),
    {
        proof {
            use_type_invariant(self);
        }
        let ghost levels = self@.version.levels;
        let ghost tables = self@.tables;
        let mut sum = VersionMeta { size_of_disk: 0, len: 0 };
        let mut depth: usize = 0;
        while depth < LEVEL_COUNT
            invariant
                depth <= LEVEL_COUNT,
                levels == self@.version.levels,
                tables == self@.tables,
                sum.size_of_disk == totals_upto(levels, tables, depth as nat).size_of_disk,
                sum.len == totals_upto(levels, tables, depth as nat).len,
            decreases LEVEL_COUNT - depth,
        {
            let scopes = self.parts.version.level_scopes(depth);
            proof {
                lemma_totals_upto(levels, tables, (depth + 1) as nat);
                lemma_level_totals_not_negative(levels[depth as int], tables);
            }
            let next = match count_tables(scopes, &self.parts.table_loader) {
                Some(meta) => sum.added(&meta),
                None => None,
            };
            match next {
                Some(next) => {
                    sum = next;
                },
                None => {
                    // more than a counter can hold
                    return false;
                },
            }
            depth += 1;
        }
        proof {
            lemma_totals_upto(levels, tables, LEVEL_COUNT as nat);
        }
        let meta = self.parts.version.meta();
        sum.size_of_disk == meta.size_of_disk && sum.len == meta.len
    }

    /// The bytes on disk over all tables of the current version: where
    /// the store is counted, the sum of the file sizes of the tables that
    /// the version names.
    pub fn size_of_disk(&self) -> (r: u64)
        ensures
            r == self@.version.meta.size_of_disk,
            self@.counted() ==> r == all_totals(self@.version.levels, self@.tables).size_of_disk,
    {
        self.parts.version.size_of_disk()
    }

    /// The number of entries: those that the current version counts and
    /// those of the active run. There is no such number where the sum does
    /// not fit.
    pub fn len(&self) -> (r: Result<usize, KvsError>)
        ensures
            match r {
                Ok(len) => len == self@.version.meta.len + self@.mem.active.len(),
                Err(e) => e == KvsError::Internal && self@.version.meta.len
                    + self@.mem.active.len() > usize::MAX,
            },
    {
        match self.parts.version.len().checked_add(self.parts.mem_table.len()) {
            Some(len) => Ok(len),
            None => Err(KvsError::Internal),
        }
    }

    /// Whether the current version counts no entry and the active run is
    /// empty.
    pub fn is_empty(&self) -> (r: bool)
        ensures
            r == (self@.version.meta.len == 0 && self@.mem.active.len() == 0),
    {
        self.parts.version.is_empty() && self.parts.mem_table.is_empty()
    }

    /// A snapshot for a transaction: copies of the current version and of
    /// the staging table.
    pub fn new_trans(&self) -> (r: Transaction)
        ensures
            r.version@ == self@.version,
            r.mem_table@ == self@.mem,
    {
        Transaction {
            version: self.parts.version.clone(),
            mem_table: self.parts.mem_table.clone(),
        }
    }
}

} // verus!
