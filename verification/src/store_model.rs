//! The store as a mathematical value: what it holds for each key, how its
//! operations change it, and the laws that follow.

use vstd::prelude::*;
use std::path::PathBuf;
use crate::command::CommandView;
use crate::config::Options;
use crate::mem_table::MemTableView;
use crate::run::{entry_at, has_key, is_run, lemma_with_entry, EntryView};
use crate::scope::ScopeView;
use crate::table::{
    has_table, lemma_table_of_after_push, lemma_table_scope_holds_keys, table_of, tables_wf,
    TableView,
};
use crate::version::edit::VersionEditView;
use crate::version::model::{
    after_edits, insert_by_gen, levels_ordered, query_deeper, query_level_0, query_tables,
    sort_by_gen, successor, table_value, VersionView, LEVEL_COUNT,
};

verus! {

/// A store as a mathematical value: the staging table, the current version,
/// the tables loaded, and the configuration that the store was opened
/// with, which is its directory and its options.
pub struct StoreView {
    pub mem: MemTableView,
    pub version: VersionView,
    pub tables: Seq<TableView>,
    pub options: Options,
    pub dir_path: PathBuf,
}

/// Every table that the levels name is loaded.
pub open spec fn all_loaded(levels: Seq<Seq<ScopeView>>, tables: Seq<TableView>) -> bool {
    forall|depth: int, i: int|
        0 <= depth < levels.len() && 0 <= i < levels[depth].len() ==> has_table(
            tables,
            (#[trigger] levels[depth][i]).gen,
        )
}

/// The value that stands for "no value": a reader takes it as a miss.
pub open spec fn shown(found: Option<Seq<u8>>) -> Option<Seq<u8>> {
    match found {
        Some(value) => if value.len() == 0 {
            None
        } else {
            Some(value)
        },
        None => None,
    }
}

/// The edit that puts one new table at level 0.
pub open spec fn minor_edit(table: TableView) -> VersionEditView {
    VersionEditView::NewFile {
        scopes: seq![table.scope()],
        level: 0,
        index: 0,
        meta: table.meta(),
    }
}

impl StoreView {
    /// The parts are well formed, and every table that the version names is
    /// loaded.
    pub open spec fn wf(self) -> bool {
        &&& self.mem.wf()
        &&& levels_ordered(self.version.levels)
        &&& tables_wf(self.tables)
        &&& all_loaded(self.version.levels, self.tables)
    }

    /// What the store finds for a key: the staging table is asked first,
    /// then the tables of the version. A removal is found as the empty
    /// value.
    pub open spec fn found(self, key: Seq<u8>) -> Option<Seq<u8>> {
        match self.mem.find(key) {
            Some(value) => Some(value),
            None => query_tables(self.version.levels, self.tables, key),
        }
    }

    /// What a reader gets for a key: the value found, unless it is empty.
    pub open spec fn get(self, key: Seq<u8>) -> Option<Seq<u8>> {
        shown(self.found(key))
    }

    /// The store after a command was put into the staging table.
    pub open spec fn appended(self, cmd: CommandView, seq: i64) -> StoreView {
        StoreView { mem: self.mem.inserted(cmd, seq), ..self }
    }

    /// Whether a swap would freeze the active run: no run is frozen and the
    /// active run is not empty.
    pub open spec fn can_swap(self) -> bool {
        self.mem.frozen is None && self.mem.active.len() > 0
    }

    /// Whether the active run has reached `minor_threshold_with_len`
    /// entries.
    pub open spec fn is_full(self) -> bool {
        self.mem.active.len() >= self.options.minor_threshold_with_len
    }

    /// The store after a write: the command is put into the staging table,
    /// and where the active run is full after that, the staging table is
    /// swapped.
    pub open spec fn written(self, cmd: CommandView, seq: i64) -> StoreView {
        let put = self.appended(cmd, seq);
        if put.is_full() {
            put.swapped()
        } else {
            put
        }
    }

    /// Whether the write sets off a minor compaction: the active run is
    /// full after it and can be frozen.
    pub open spec fn sets_off_minor(self, cmd: CommandView, seq: i64) -> bool {
        let put = self.appended(cmd, seq);
        put.is_full() && put.can_swap()
    }

    /// Whether one of the levels names the table with this gen.
    pub open spec fn names_gen(self, gen: i64) -> bool {
        exists|depth: int, i: int|
            0 <= depth < self.version.levels.len() && 0 <= i < self.version.levels[depth].len() && (
            #[trigger] self.version.levels[depth][i]).gen == gen
    }

    /// The store after the staging table was swapped.
    pub open spec fn swapped(self) -> StoreView {
        StoreView { mem: self.mem.swapped(), ..self }
    }

    /// The table that the frozen run becomes under this gen and file size.
    pub open spec fn frozen_table(self, gen: i64, size_of_disk: u64) -> TableView {
        TableView { gen, entries: self.mem.frozen.unwrap(), size_of_disk }
    }

    /// Whether the frozen run can be installed as the table with this gen:
    /// there is a frozen run, no loaded table has the gen, and the version
    /// has a successor by the edit.
    pub open spec fn can_install(self, gen: i64, size_of_disk: u64) -> bool {
        &&& self.mem.frozen is Some
        &&& !has_table(self.tables, gen)
        &&& successor(
            self.version,
            seq![minor_edit(self.frozen_table(gen, size_of_disk))],
        ) is Some
    }

    /// The store after the frozen run was installed as a table of level 0.
    pub open spec fn installed(self, gen: i64, size_of_disk: u64) -> StoreView {
        let table = self.frozen_table(gen, size_of_disk);
        StoreView {
            mem: MemTableView { frozen: None, ..self.mem },
            version: successor(self.version, seq![minor_edit(table)]).unwrap(),
            tables: self.tables.push(table),
            ..self
        }
    }
}

/// Sorting a single scope leaves it as it is.
pub proof fn lemma_sort_single(scope: ScopeView)
    ensures
        sort_by_gen(seq![scope]) == seq![scope],
{
    let one = seq![scope];
    assert(one.drop_last() =~= Seq::<ScopeView>::empty());
    assert(sort_by_gen(one.drop_last()) =~= Seq::<ScopeView>::empty());
    assert(insert_by_gen(Seq::<ScopeView>::empty(), scope) =~= one);
}

/// The successor by the edit for one new table differs from the version in
/// level 0 alone, which ends in the scope of the new table.
pub proof fn lemma_minor_successor(version: VersionView, table: TableView)
    requires
        levels_ordered(version.levels),
        successor(version, seq![minor_edit(table)]) is Some,
    ensures
        ({
            let after = successor(version, seq![minor_edit(table)]).unwrap();
            &&& after.levels == version.levels.update(0, version.levels[0].push(table.scope()))
            &&& after.version_num == version.version_num + 1
            &&& version.meta.plus(table.meta()) == Some(after.meta)
            &&& levels_ordered(after.levels)
        }),
{
    let edits = seq![minor_edit(table)];
    assert(edits.drop_last() =~= Seq::<VersionEditView>::empty());
    assert(after_edits(version, edits.drop_last()) == Some(version));
    lemma_sort_single(table.scope());
    assert(version.levels[0] + seq![table.scope()] =~= version.levels[0].push(table.scope()));
}

/// A version has a successor by the edit for one new table exactly when
/// its counters can take those of the table and its number can go up.
pub proof fn lemma_minor_successor_exists(version: VersionView, table: TableView)
    requires
        levels_ordered(version.levels),
    ensures
        successor(version, seq![minor_edit(table)]) is Some <==> (version.meta.plus(
            table.meta(),
        ) is Some && version.version_num < u64::MAX),
{
    let edits = seq![minor_edit(table)];
    assert(edits.drop_last() =~= Seq::<VersionEditView>::empty());
    assert(after_edits(version, edits.drop_last()) == Some(version));
    lemma_sort_single(table.scope());
    assert(version.levels[0] + seq![table.scope()] =~= version.levels[0].push(table.scope()));
    if version.meta.plus(table.meta()) is Some {
        let after = after_edits(version, edits).unwrap();
        assert forall|depth: int| 1 <= depth < LEVEL_COUNT implies crate::scope::level_ordered(
            #[trigger] after.levels[depth],
        ) by {
            assert(after.levels[depth] == version.levels[depth]);
        }
    }
}

/// Level 0 answers the same with other tables, as long as the tables that
/// it names are the same.
pub proof fn lemma_level_0_same_tables(
    level: Seq<ScopeView>,
    tables: Seq<TableView>,
    more: Seq<TableView>,
    key: Seq<u8>,
)
    requires
        forall|i: int|
            0 <= i < level.len() ==> table_of(more, (#[trigger] level[i]).gen) == table_of(
                tables,
                level[i].gen,
            ),
    ensures
        query_level_0(level, more, key) == query_level_0(level, tables, key),
    decreases level.len(),
{
    if level.len() > 0 {
        let front = level.drop_last();
        assert forall|i: int| 0 <= i < front.len() implies table_of(more, (#[trigger] front[i]).gen)
            == table_of(tables, front[i].gen) by {
            assert(front[i] == level[i]);
        }
        lemma_level_0_same_tables(front, tables, more, key);
        assert(level.last() == level[level.len() - 1]);
    }
}

/// The deeper levels answer the same with other tables, as long as the
/// tables that the levels name are the same.
pub proof fn lemma_deeper_same_tables(
    levels: Seq<Seq<ScopeView>>,
    other: Seq<Seq<ScopeView>>,
    tables: Seq<TableView>,
    more: Seq<TableView>,
    key: Seq<u8>,
    depth: int,
)
    requires
        levels.len() == LEVEL_COUNT,
        other.len() == LEVEL_COUNT,
        1 <= depth <= LEVEL_COUNT,
        forall|d: int| 1 <= d < LEVEL_COUNT ==> other[d] == levels[d],
        forall|d: int, i: int|
            0 <= d < LEVEL_COUNT && 0 <= i < levels[d].len() ==> table_of(
                more,
                (#[trigger] levels[d][i]).gen,
            ) == table_of(tables, levels[d][i].gen),
        levels_ordered(levels),
    ensures
        query_deeper(other, more, key, depth) == query_deeper(levels, tables, key, depth),
    decreases LEVEL_COUNT - depth,
{
    if depth < LEVEL_COUNT {
        lemma_deeper_same_tables(levels, other, tables, more, key, depth + 1);
        let level = levels[depth];
        if level.len() > 0 {
            crate::version::model::lemma_meet_index_in_level(level, key);
            let place = crate::version::model::meet_index(level, key);
            assert(table_of(more, levels[depth][place].gen) == table_of(
                tables,
                levels[depth][place].gen,
            ));
        }
    }
}

/// Two stores that differ only in tables which the version does not name
/// find the same for every key.
pub proof fn lemma_same_tables_same_found(store: StoreView, other: StoreView, key: Seq<u8>)
    requires
        store.wf(),
        other.mem == store.mem,
        other.version == store.version,
        forall|depth: int, i: int|
            0 <= depth < LEVEL_COUNT && 0 <= i < store.version.levels[depth].len() ==> table_of(
                other.tables,
                (#[trigger] store.version.levels[depth][i]).gen,
            ) == table_of(store.tables, store.version.levels[depth][i].gen),
    ensures
        other.found(key) == store.found(key),
        other.get(key) == store.get(key),
{
    let levels = store.version.levels;
    lemma_level_0_same_tables(levels[0], store.tables, other.tables, key);
    lemma_deeper_same_tables(levels, levels, store.tables, other.tables, key, 1);
}

/// Installing the frozen run as a table changes nothing for any reader:
/// what the tables hold afterwards is what the frozen run held, and below
/// it what the tables held before.
pub proof fn lemma_install_keeps_found(store: StoreView, gen: i64, size_of_disk: u64, key: Seq<u8>)
    requires
        store.wf(),
        store.can_install(gen, size_of_disk),
    ensures
        store.installed(gen, size_of_disk).wf(),
        store.installed(gen, size_of_disk).found(key) == store.found(key),
        store.installed(gen, size_of_disk).get(key) == store.get(key),
{
    let table = store.frozen_table(gen, size_of_disk);
    let after = store.installed(gen, size_of_disk);
    let levels = store.version.levels;
    let frozen = store.mem.frozen.unwrap();
    lemma_minor_successor(store.version, table);
    assert(table.wf());
    // the tables: the new one is found under its gen, the others as before
    assert forall|g: i64| table_of(after.tables, g) == if g == gen {
        Some(table)
    } else {
        table_of(store.tables, g)
    } by {
        lemma_table_of_after_push(store.tables, table, g);
    }
    lemma_table_of_after_push(store.tables, table, gen);
    assert forall|d: int, i: int| 0 <= d < LEVEL_COUNT && 0 <= i < levels[d].len() implies table_of(
        after.tables,
        (#[trigger] levels[d][i]).gen,
    ) == table_of(store.tables, levels[d][i].gen) by {
        assert(has_table(store.tables, levels[d][i].gen));
    }
    // well-formedness afterwards
    assert forall|i: int| 0 <= i < after.tables.len() implies (#[trigger] after.tables[i]).wf() by {
        if i < store.tables.len() {
            assert(after.tables[i] == store.tables[i]);
        }
    }
    assert forall|d: int, i: int|
        0 <= d < after.version.levels.len() && 0 <= i < after.version.levels[d].len() implies has_table(
        after.tables,
        (#[trigger] after.version.levels[d][i]).gen,
    ) by {
        let scope = after.version.levels[d][i];
        if d == 0 && i == levels[0].len() {
            assert(after.tables[store.tables.len() as int].gen == scope.gen);
        } else {
            assert(scope == levels[d][i]);
            assert(has_table(store.tables, levels[d][i].gen));
            let at = choose|at: int|
                0 <= at < store.tables.len() && (#[trigger] store.tables[at]).gen == scope.gen;
            assert(after.tables[at].gen == scope.gen);
        }
    }
    // level 0 afterwards: the new table first, then the old level
    let level_0 = levels[0].push(table.scope());
    assert(level_0.drop_last() =~= levels[0]);
    assert(level_0.last() == table.scope());
    lemma_level_0_same_tables(levels[0], store.tables, after.tables, key);
    lemma_deeper_same_tables(levels, after.version.levels, store.tables, after.tables, key, 1);
    if has_key(frozen, key) {
        lemma_table_scope_holds_keys(table, key);
    }
    assert(table_value(after.tables, gen, key) == table.query(key));
}

/// Swapping the staging table changes nothing for any reader.
pub proof fn lemma_swap_keeps_found(store: StoreView, key: Seq<u8>)
    requires
        store.wf(),
    ensures
        store.swapped().wf(),
        store.swapped().found(key) == store.found(key),
        store.swapped().get(key) == store.get(key),
{
    if store.mem.frozen is None && store.mem.active.len() > 0 {
        assert(entry_at(Seq::<EntryView>::empty(), key) is None);
        assert(is_run(Seq::<EntryView>::empty()));
    }
}

/// After a command was put into the staging table, the store finds its
/// value under its key and finds for every other key what it found before.
pub proof fn lemma_append_found(store: StoreView, cmd: CommandView, seq: i64, key: Seq<u8>)
    requires
        store.wf(),
    ensures
        store.appended(cmd, seq).wf(),
        store.appended(cmd, seq).found(key) == if key == cmd.key() {
            Some(cmd.value())
        } else {
            store.found(key)
        },
{
    lemma_with_entry(store.mem.active, EntryView { cmd, seq: store.mem.next_seq(seq) });
    crate::mem_table::lemma_inserted_wf(store.mem, cmd, seq);
}

/// After a write, the store finds the value of the command under its key
/// and finds for every other key what it found before, whether or not the
/// write led to a swap.
pub proof fn lemma_written_found(store: StoreView, cmd: CommandView, seq: i64, key: Seq<u8>)
    requires
        store.wf(),
    ensures
        store.written(cmd, seq).wf(),
        store.written(cmd, seq).found(key) == if key == cmd.key() {
            Some(cmd.value())
        } else {
            store.found(key)
        },
{
    lemma_append_found(store, cmd, seq, key);
    lemma_swap_keeps_found(store.appended(cmd, seq), key);
}

/// A write is read back: after `set(key, value)` with a value that is not
/// empty, and whatever swap and installation of the frozen run follow,
/// `get(key)` gives that value.
pub proof fn lemma_set_then_flush_then_get(
    store: StoreView,
    key: Seq<u8>,
    value: Seq<u8>,
    seq: i64,
    gen: i64,
    size_of_disk: u64,
)
    requires
        store.wf(),
        value.len() > 0,
    ensures
        ({
            let written = store.appended(CommandView::Put { key, value }, seq);
            let flushed = written.swapped();
            &&& written.get(key) == Some(value)
            &&& flushed.get(key) == Some(value)
            &&& flushed.can_install(gen, size_of_disk) ==> flushed.installed(gen, size_of_disk).get(
                key,
            ) == Some(value)
        }),
{
    let written = store.appended(CommandView::Put { key, value }, seq);
    lemma_append_found(store, CommandView::Put { key, value }, seq, key);
    lemma_swap_keeps_found(written, key);
    let flushed = written.swapped();
    if flushed.can_install(gen, size_of_disk) {
        lemma_install_keeps_found(flushed, gen, size_of_disk, key);
    }
}

/// A removal is read back: after `remove(key)`, and whatever swap and
/// installation of the frozen run follow, `get(key)` gives nothing,
/// whatever the store held for the key before.
pub proof fn lemma_remove_then_flush_then_get(
    store: StoreView,
    key: Seq<u8>,
    seq: i64,
    gen: i64,
    size_of_disk: u64,
)
    requires
        store.wf(),
    ensures
        ({
            let removed = store.appended(CommandView::Remove { key }, seq);
            let flushed = removed.swapped();
            &&& removed.get(key) is None
            &&& flushed.get(key) is None
            &&& flushed.can_install(gen, size_of_disk) ==> flushed.installed(gen, size_of_disk).get(
                key,
            ) is None
        }),
{
    let removed = store.appended(CommandView::Remove { key }, seq);
    lemma_append_found(store, CommandView::Remove { key }, seq, key);
    lemma_swap_keeps_found(removed, key);
    let flushed = removed.swapped();
    if flushed.can_install(gen, size_of_disk) {
        lemma_install_keeps_found(flushed, gen, size_of_disk, key);
    }
}

impl StoreView {
    /// A reader gets from the store exactly what the map holds.
    pub open spec fn reads_as(self, content: Map<Seq<u8>, Seq<u8>>) -> bool {
        forall|key: Seq<u8>|
            #[trigger] self.get(key) == if content.contains_key(key) {
                Some(content[key])
            } else {
                None
            }
    }
}

/// A store without entries whose version names no table is well formed,
/// whatever tables are loaded, and reads as the empty map.
pub proof fn lemma_empty_store_reads_as_empty(store: StoreView)
    requires
        store.mem.active == Seq::<EntryView>::empty(),
        store.mem.frozen is None,
        store.version.levels == crate::version::model::empty_version().levels,
        tables_wf(store.tables),
    ensures
        store.wf(),
        store.reads_as(Map::empty()),
{
    assert forall|key: Seq<u8>| #[trigger] store.get(key) is None by {
        assert(entry_at(Seq::<EntryView>::empty(), key) is None);
        let levels = store.version.levels;
        assert(query_level_0(levels[0], store.tables, key) is None);
        assert(query_deeper(levels, store.tables, key, 7) is None);
        assert(query_deeper(levels, store.tables, key, 6) is None);
        assert(query_deeper(levels, store.tables, key, 5) is None);
        assert(query_deeper(levels, store.tables, key, 4) is None);
        assert(query_deeper(levels, store.tables, key, 3) is None);
        assert(query_deeper(levels, store.tables, key, 2) is None);
        assert(query_deeper(levels, store.tables, key, 1) is None);
    }
}

} // verus!
