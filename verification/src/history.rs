//! The life of a store as a sequence of steps, the law that a reader
//! always gets the value of the last write to a key that no removal
//! followed, and the law that the counters of the version are what its
//! tables count.

use vstd::prelude::*;
use crate::command::CommandView;
use crate::compaction_model::{
    chosen_alone, fits, gens_once, holds_output, lemma_filter_keeps_gens_once,
    lemma_levels_fit_after, lemma_major_keeps_get, lemma_major_levels,
    lemma_ordered_level_gens_once, lemma_planned_choice_takes_whole_tables, lemma_table_of_gen,
    level_fits, levels_fit, takes_whole_tables,
};
use crate::compactor::{gens_of, major_edits, major_plan, MajorView};
use crate::scope::ScopeView;
use crate::store_model::{
    all_loaded, lemma_append_found, lemma_install_keeps_found, lemma_minor_successor,
    lemma_same_tables_same_found, lemma_swap_keeps_found, StoreView,
};
use crate::table::{
    has_table, lemma_table_of_after_push, lemma_tables_without, table_of, tables_wf,
    without_table, TableView,
};
use crate::totals::{
    counts_tables, lemma_all_totals_same_tables, lemma_install_keeps_count,
    lemma_major_edits_count, lemma_successor_counts_tables,
};
use crate::version::model::{gen_not_in, levels_ordered, successor, LEVEL_COUNT};

verus! {

/// One step in the life of a store.
pub enum StoreOp {
    /// `set(key, value)`, written under the sequence id `seq`.
    Write { key: Seq<u8>, value: Seq<u8>, seq: i64 },
    /// `remove(key)`, written under the sequence id `seq`; refused where a
    /// reader gets nothing for the key.
    Remove { key: Seq<u8>, seq: i64 },
    /// The staging table is swapped.
    Swap,
    /// The frozen run is installed as the table with this gen and file
    /// size; refused where that cannot be done.
    Install { gen: i64, size_of_disk: u64 },
    /// A table is loaded; refused where a table with its gen is loaded.
    Load { table: TableView },
    /// The result of a major compaction is installed: the new tables are
    /// those with the gens `new_gens`; refused where that cannot be done.
    Compact { plan: MajorView, new_gens: Seq<i64> },
    /// The table with this gen is let go; refused where the version names
    /// it.
    Unload { gen: i64 },
}

impl StoreView {
    /// The store with one more table loaded.
    pub open spec fn loaded(self, table: TableView) -> StoreView {
        StoreView { tables: self.tables.push(table), ..self }
    }

    /// The store without the table with this gen.
    pub open spec fn unloaded(self, gen: i64) -> StoreView {
        StoreView { tables: without_table(self.tables, gen), ..self }
    }

    /// Whether the result of a major compaction can be installed: there
    /// are edits for it, the version has a successor by them, and every
    /// table that the successor names is loaded.
    pub open spec fn can_compact(self, plan: MajorView, new_gens: Seq<i64>) -> bool {
        &&& major_edits(plan, new_gens, self.tables) matches Some(edits)
        &&& successor(self.version, edits) matches Some(next)
        &&& all_loaded(next.levels, self.tables)
    }

    /// The store after the result of a major compaction was installed.
    pub open spec fn compacted(self, plan: MajorView, new_gens: Seq<i64>) -> StoreView {
        StoreView {
            version: successor(
                self.version,
                major_edits(plan, new_gens, self.tables).unwrap(),
            ).unwrap(),
            ..self
        }
    }

    /// The store after one step.
    pub open spec fn after_op(self, op: StoreOp) -> StoreView {
        match op {
            StoreOp::Write { key, value, seq } => self.appended(
                CommandView::Put { key, value },
                seq,
            ),
            StoreOp::Remove { key, seq } => if self.get(key) is Some {
                self.appended(CommandView::Remove { key }, seq)
            } else {
                self
            },
            StoreOp::Swap => self.swapped(),
            StoreOp::Install { gen, size_of_disk } => if self.can_install(gen, size_of_disk) {
                self.installed(gen, size_of_disk)
            } else {
                self
            },
            StoreOp::Load { table } => if table.wf() && !has_table(self.tables, table.gen) {
                self.loaded(table)
            } else {
                self
            },
            StoreOp::Compact { plan, new_gens } => if self.can_compact(plan, new_gens) {
                self.compacted(plan, new_gens)
            } else {
                self
            },
            StoreOp::Unload { gen } => if !self.names_gen(gen) {
                self.unloaded(gen)
            } else {
                self
            },
        }
    }

    /// The store after the steps, taken in order.
    pub open spec fn after_ops(self, ops: Seq<StoreOp>) -> StoreView
        decreases ops.len(),
    {
        if ops.len() == 0 {
            self
        } else {
            self.after_ops(ops.drop_last()).after_op(ops.last())
        }
    }

    /// The store is well formed, every scope that its version names is
    /// the scope of its table, and level 0 names no table twice. (The
    /// levels below it cannot: they are in order.)
    pub open spec fn tidy(self) -> bool {
        &&& self.wf()
        &&& levels_fit(self.version.levels, self.tables)
        &&& gens_once(self.version.levels[0])
    }

    /// Whether a step is one that the law speaks of: a write carries a
    /// value that is not empty, and a major compaction takes whole tables
    /// that hide no older table which stays, and installs what their
    /// merge gives.
    pub open spec fn takes(self, op: StoreOp) -> bool {
        match op {
            StoreOp::Write { value, .. } => value.len() > 0,
            StoreOp::Compact { plan, new_gens } => self.can_compact(plan, new_gens) ==> {
                &&& takes_whole_tables(self.version.levels, plan)
                &&& holds_output(
                    self.version.levels,
                    self.tables,
                    plan,
                    new_gens,
                    self.options.sst_file_size,
                )
                &&& forall|key: Seq<u8>|
                    chosen_alone(self.version.levels, self.tables, plan, key)
            },
            _ => true,
        }
    }

    /// Whether each of the steps, when its turn comes, is one that the law
    /// speaks of.
    pub open spec fn takes_all(self, ops: Seq<StoreOp>) -> bool
        decreases ops.len(),
    {
        if ops.len() == 0 {
            true
        } else {
            self.takes_all(ops.drop_last()) && self.after_ops(ops.drop_last()).takes(ops.last())
        }
    }
}

/// What a map from keys to values holds after one step: a write puts its
/// value under its key, a removal takes the key out, and the other steps
/// change nothing.
pub open spec fn content_after_op(content: Map<Seq<u8>, Seq<u8>>, op: StoreOp) -> Map<
    Seq<u8>,
    Seq<u8>,
> {
    match op {
        StoreOp::Write { key, value, .. } => content.insert(key, value),
        StoreOp::Remove { key, .. } => content.remove(key),
        _ => content,
    }
}

/// What the map holds after the steps, taken in order.
pub open spec fn content_after_ops(content: Map<Seq<u8>, Seq<u8>>, ops: Seq<StoreOp>) -> Map<
    Seq<u8>,
    Seq<u8>,
>
    decreases ops.len(),
{
    if ops.len() == 0 {
        content
    } else {
        content_after_op(content_after_ops(content, ops.drop_last()), ops.last())
    }
}

/// Loading a table and installing the frozen run keep every scope the
/// scope of its table.
proof fn lemma_more_tables_fit(
    levels: Seq<Seq<ScopeView>>,
    tables: Seq<TableView>,
    table: TableView,
)
    requires
        levels.len() == LEVEL_COUNT,
        tables_wf(tables),
        all_loaded(levels, tables),
        levels_fit(levels, tables),
        !has_table(tables, table.gen),
        table.wf(),
    ensures
        tables_wf(tables.push(table)),
        all_loaded(levels, tables.push(table)),
        levels_fit(levels, tables.push(table)),
        fits(table.scope(), tables.push(table)),
        forall|depth: int, i: int|
            0 <= depth < LEVEL_COUNT && 0 <= i < levels[depth].len() ==> table_of(
                tables.push(table),
                (#[trigger] levels[depth][i]).gen,
            ) == table_of(tables, levels[depth][i].gen),
{
    let more = tables.push(table);
    lemma_table_of_after_push(tables, table, table.gen);
    assert forall|i: int| 0 <= i < more.len() implies (#[trigger] more[i]).wf() by {
        if i < tables.len() {
            assert(more[i] == tables[i]);
        }
    }
    assert forall|depth: int, i: int|
        0 <= depth < LEVEL_COUNT && 0 <= i < levels[depth].len() implies table_of(
        more,
        (#[trigger] levels[depth][i]).gen,
    ) == table_of(tables, levels[depth][i].gen) && has_table(more, levels[depth][i].gen) by {
        let gen = levels[depth][i].gen;
        assert(has_table(tables, gen));
        lemma_table_of_after_push(tables, table, gen);
    }
    assert forall|depth: int| 0 <= depth < levels.len() implies level_fits(
        #[trigger] levels[depth],
        more,
    ) by {
        let level = levels[depth];
        assert(level_fits(level, tables));
        assert forall|i: int| 0 <= i < level.len() implies fits(#[trigger] level[i], more) by {
            assert(fits(level[i], tables));
            assert(table_of(more, levels[depth][i].gen) == table_of(tables, levels[depth][i].gen));
        }
    }
}

/// Letting a table go that the version does not name keeps the store tidy
/// and changes nothing for a reader.
proof fn lemma_unload_keeps(store: StoreView, gen: i64, key: Seq<u8>)
    requires
        store.tidy(),
        !store.names_gen(gen),
    ensures
        store.unloaded(gen).tidy(),
        store.unloaded(gen).get(key) == store.get(key),
{
    let levels = store.version.levels;
    let after = store.unloaded(gen);
    if has_table(store.tables, gen) {
        let place = choose|place: int|
            0 <= place < store.tables.len() && (#[trigger] store.tables[place]).gen == gen;
        lemma_tables_without(store.tables, place);
    }
    assert forall|depth: int, i: int|
        0 <= depth < LEVEL_COUNT && 0 <= i < levels[depth].len() implies table_of(
        after.tables,
        (#[trigger] levels[depth][i]).gen,
    ) == table_of(store.tables, levels[depth][i].gen) && has_table(
        after.tables,
        levels[depth][i].gen,
    ) by {
        assert(levels[depth][i].gen != gen);
        assert(has_table(store.tables, levels[depth][i].gen));
    }
    assert forall|depth: int| 0 <= depth < levels.len() implies level_fits(
        #[trigger] levels[depth],
        after.tables,
    ) by {
        let level = levels[depth];
        assert(level_fits(level, store.tables));
        assert forall|i: int| 0 <= i < level.len() implies fits(#[trigger] level[i], after.tables) by {
            assert(fits(level[i], store.tables));
            assert(table_of(after.tables, levels[depth][i].gen) == table_of(
                store.tables,
                levels[depth][i].gen,
            ));
        }
    }
    lemma_same_tables_same_found(store, after, key);
}

/// One step keeps a tidy store tidy.
pub proof fn lemma_op_keeps_tidy(store: StoreView, op: StoreOp)
    requires
        store.tidy(),
    ensures
        store.after_op(op).tidy(),
{
    let after = store.after_op(op);
    let levels = store.version.levels;
    match op {
        StoreOp::Write { key, value, seq } => {
            lemma_append_found(store, CommandView::Put { key, value }, seq, key);
        },
        StoreOp::Remove { key, seq } => {
            lemma_append_found(store, CommandView::Remove { key }, seq, key);
        },
        StoreOp::Swap => {
            lemma_swap_keeps_found(store, Seq::empty());
        },
        StoreOp::Install { gen, size_of_disk } => {
            if store.can_install(gen, size_of_disk) {
                let table = store.frozen_table(gen, size_of_disk);
                lemma_install_keeps_found(store, gen, size_of_disk, Seq::empty());
                lemma_minor_successor(store.version, table);
                lemma_more_tables_fit(levels, store.tables, table);
                // the new table is named once: no table had its gen
                let grown = levels[0].push(table.scope());
                assert(after.version.levels[0] == grown);
                assert forall|i: int, j: int| 0 <= i < j < grown.len() implies (
                #[trigger] grown[i]).gen != (#[trigger] grown[j]).gen by {
                    assert(has_table(store.tables, levels[0][i].gen));
                    if j < levels[0].len() {
                        assert(levels[0][i].gen != levels[0][j].gen);
                    }
                }
                assert forall|depth: int| 0 <= depth < after.version.levels.len() implies level_fits(
                    #[trigger] after.version.levels[depth],
                    after.tables,
                ) by {
                    let level = after.version.levels[depth];
                    assert(level_fits(levels[depth], after.tables));
                    assert forall|i: int| 0 <= i < level.len() implies fits(
                        #[trigger] level[i],
                        after.tables,
                    ) by {
                        if depth == 0 && i == levels[0].len() {
                        } else {
                            assert(level[i] == levels[depth][i]);
                        }
                    }
                }
            }
        },
        StoreOp::Load { table } => {
            if table.wf() && !has_table(store.tables, table.gen) {
                lemma_more_tables_fit(levels, store.tables, table);
            }
        },
        StoreOp::Compact { plan, new_gens } => {
            if store.can_compact(plan, new_gens) {
                lemma_major_levels(store.version, plan, new_gens, store.tables);
                lemma_levels_fit_after(store.version, store.tables, plan, new_gens);
                // level 0 keeps its tables or loses some of them
                if plan.level == 0 {
                    lemma_filter_keeps_gens_once(levels[0], gen_not_in(gens_of(plan.upper)));
                } else {
                    assert(after.version.levels[0] == levels[0]);
                }
            }
        },
        StoreOp::Unload { gen } => {
            if !store.names_gen(gen) {
                lemma_unload_keeps(store, gen, Seq::empty());
            }
        },
    }
}

/// One step keeps store and map in agreement, and keeps the store tidy.
pub proof fn lemma_op_keeps_agreement(store: StoreView, content: Map<Seq<u8>, Seq<u8>>, op: StoreOp)
    requires
        store.tidy(),
        store.reads_as(content),
        store.takes(op),
    ensures
        store.after_op(op).tidy(),
        store.after_op(op).reads_as(content_after_op(content, op)),
{
    let after = store.after_op(op);
    let map_after = content_after_op(content, op);
    let levels = store.version.levels;
    lemma_op_keeps_tidy(store, op);
    // and reads as the map
    assert forall|key: Seq<u8>| #[trigger] after.get(key) == if map_after.contains_key(key) {
        Some(map_after[key])
    } else {
        None
    } by {
        assert(store.get(key) == if content.contains_key(key) {
            Some(content[key])
        } else {
            None
        });
        match op {
            StoreOp::Write { key: written, value, seq } => {
                lemma_append_found(store, CommandView::Put { key: written, value }, seq, key);
            },
            StoreOp::Remove { key: removed, seq } => {
                assert(store.get(removed) == if content.contains_key(removed) {
                    Some(content[removed])
                } else {
                    None
                });
                if store.get(removed) is Some {
                    lemma_append_found(store, CommandView::Remove { key: removed }, seq, key);
                }
            },
            StoreOp::Swap => {
                lemma_swap_keeps_found(store, key);
            },
            StoreOp::Install { gen, size_of_disk } => {
                if store.can_install(gen, size_of_disk) {
                    lemma_install_keeps_found(store, gen, size_of_disk, key);
                }
            },
            StoreOp::Load { table } => {
                if table.wf() && !has_table(store.tables, table.gen) {
                    lemma_more_tables_fit(levels, store.tables, table);
                    lemma_same_tables_same_found(store, after, key);
                }
            },
            StoreOp::Compact { plan, new_gens } => {
                if store.can_compact(plan, new_gens) {
                    assert(chosen_alone(levels, store.tables, plan, key));
                    lemma_major_keeps_get(store, plan, new_gens, key);
                }
            },
            StoreOp::Unload { gen } => {
                if !store.names_gen(gen) {
                    lemma_unload_keeps(store, gen, key);
                }
            },
        }
    }
}

/// A store without entries whose version names no table is tidy.
pub proof fn lemma_empty_store_is_tidy(store: StoreView)
    requires
        store.mem.active == Seq::<crate::run::EntryView>::empty(),
        store.mem.frozen is None,
        store.version.levels == crate::version::model::empty_version().levels,
        tables_wf(store.tables),
    ensures
        store.tidy(),
        store.reads_as(Map::empty()),
{
    crate::store_model::lemma_empty_store_reads_as_empty(store);
    assert forall|depth: int| 0 <= depth < store.version.levels.len() implies level_fits(
        #[trigger] store.version.levels[depth],
        store.tables,
    ) by {
        assert(store.version.levels[depth].len() == 0);
    }
}

/// Through any sequence of writes, removals, swaps, installations of the
/// frozen run, loads and unloads of tables and major compactions, a reader
/// gets for
/// every key the value of the last write to it that no removal followed:
/// the store reads as the map that the same steps build.
pub proof fn lemma_store_follows_history(
    store: StoreView,
    content: Map<Seq<u8>, Seq<u8>>,
    ops: Seq<StoreOp>,
)
    requires
        store.tidy(),
        store.reads_as(content),
        store.takes_all(ops),
    ensures
        store.after_ops(ops).tidy(),
        store.after_ops(ops).reads_as(content_after_ops(content, ops)),
    decreases ops.len(),
{
    if ops.len() > 0 {
        let front = ops.drop_last();
        lemma_store_follows_history(store, content, front);
        lemma_op_keeps_agreement(
            store.after_ops(front),
            content_after_ops(content, front),
            ops.last(),
        );
    }
}

/// In a tidy store no level names a table twice, and so every choice for a
/// major compaction takes whole tables.
pub proof fn lemma_tidy_choice_takes_whole_tables(store: StoreView, select: usize, level: usize)
    requires
        store.tidy(),
        major_plan(store.version.levels, select, level) is Some,
    ensures
        forall|depth: int| 0 <= depth < LEVEL_COUNT ==> gens_once(#[trigger] store.version.levels[depth]),
        takes_whole_tables(
            store.version.levels,
            major_plan(store.version.levels, select, level).unwrap(),
        ),
{
    let levels = store.version.levels;
    assert forall|depth: int| 0 <= depth < LEVEL_COUNT implies gens_once(#[trigger] levels[depth]) by {
        if depth > 0 {
            assert(level_fits(levels[depth], store.tables));
            lemma_ordered_level_gens_once(levels[depth], store.tables);
        }
    }
    assert(gens_once(levels[level as int]));
    assert(gens_once(levels[level + 1]));
    lemma_planned_choice_takes_whole_tables(levels, select, level);
}

impl StoreView {
    /// The counters of the version are what its tables count: the bytes on
    /// disk are the sum of the file sizes of the tables that the version
    /// names, and the entries are the sum of their numbers of entries.
    pub open spec fn counted(self) -> bool {
        counts_tables(self.version, self.tables)
    }

    /// Whether a step is one that the law on the counters speaks of: a
    /// run that is installed has no more entries than a counter can hold,
    /// and a major compaction takes whole tables.
    pub open spec fn keeps_count(self, op: StoreOp) -> bool {
        match op {
            StoreOp::Install { gen, size_of_disk } => self.can_install(gen, size_of_disk)
                ==> self.mem.frozen.unwrap().len() <= usize::MAX,
            StoreOp::Compact { plan, new_gens } => self.can_compact(plan, new_gens)
                ==> takes_whole_tables(self.version.levels, plan),
            _ => true,
        }
    }

    /// Whether each of the steps, when its turn comes, is one that the law
    /// on the counters speaks of.
    pub open spec fn keeps_count_all(self, ops: Seq<StoreOp>) -> bool
        decreases ops.len(),
    {
        if ops.len() == 0 {
            true
        } else {
            self.keeps_count_all(ops.drop_last()) && self.after_ops(ops.drop_last()).keeps_count(
                ops.last(),
            )
        }
    }
}

/// One step keeps the counters of the version equal to what its tables
/// count.
pub proof fn lemma_op_keeps_count(store: StoreView, op: StoreOp)
    requires
        store.wf(),
        store.counted(),
        store.keeps_count(op),
    ensures
        store.after_op(op).counted(),
{
    let after = store.after_op(op);
    let levels = store.version.levels;
    match op {
        StoreOp::Install { gen, size_of_disk } => {
            if store.can_install(gen, size_of_disk) {
                lemma_install_keeps_count(store, gen, size_of_disk);
            }
        },
        StoreOp::Load { table } => {
            if table.wf() && !has_table(store.tables, table.gen) {
                assert forall|d: int, i: int|
                    0 <= d < LEVEL_COUNT && 0 <= i < levels[d].len() implies table_of(
                    after.tables,
                    (#[trigger] levels[d][i]).gen,
                ) == table_of(store.tables, levels[d][i].gen) by {
                    assert(has_table(store.tables, levels[d][i].gen));
                    lemma_table_of_after_push(store.tables, table, levels[d][i].gen);
                }
                lemma_all_totals_same_tables(levels, store.tables, after.tables);
            }
        },
        StoreOp::Compact { plan, new_gens } => {
            if store.can_compact(plan, new_gens) {
                lemma_major_edits_count(store.version, plan, new_gens, store.tables);
                lemma_successor_counts_tables(
                    store.version,
                    major_edits(plan, new_gens, store.tables).unwrap(),
                    store.tables,
                );
            }
        },
        StoreOp::Unload { gen } => {
            if !store.names_gen(gen) {
                if has_table(store.tables, gen) {
                    let place = choose|place: int|
                        0 <= place < store.tables.len() && (#[trigger] store.tables[place]).gen
                            == gen;
                    lemma_tables_without(store.tables, place);
                }
                assert forall|d: int, i: int|
                    0 <= d < LEVEL_COUNT && 0 <= i < levels[d].len() implies table_of(
                    after.tables,
                    (#[trigger] levels[d][i]).gen,
                ) == table_of(store.tables, levels[d][i].gen) by {
                    assert(levels[d][i].gen != gen);
                }
                lemma_all_totals_same_tables(levels, store.tables, after.tables);
            }
        },
        _ => {},
    }
}

/// Through any sequence of writes, removals, swaps, installations of the
/// frozen run, loads and unloads of tables and major compactions that take
/// whole tables, the bytes on disk that the version counts are the sum of
/// the file sizes of the tables that it names, and the entries that it
/// counts are the sum of their numbers of entries.
pub proof fn lemma_history_keeps_count(store: StoreView, ops: Seq<StoreOp>)
    requires
        store.tidy(),
        store.counted(),
        store.keeps_count_all(ops),
    ensures
        store.after_ops(ops).tidy(),
        store.after_ops(ops).counted(),
    decreases ops.len(),
{
    if ops.len() > 0 {
        let front = ops.drop_last();
        lemma_history_keeps_count(store, front);
        lemma_op_keeps_tidy(store.after_ops(front), ops.last());
        lemma_op_keeps_count(store.after_ops(front), ops.last());
    }
}

/// A store whose version names no table and counts nothing counts what
/// its tables count.
pub proof fn lemma_empty_store_is_counted(store: StoreView)
    requires
        store.version.levels == crate::version::model::empty_version().levels,
        store.version.meta == crate::version::model::empty_version().meta,
    ensures
        store.counted(),
{
    let levels = store.version.levels;
    assert(levels[0].len() == 0 && levels[1].len() == 0 && levels[2].len() == 0 && levels[3].len()
        == 0 && levels[4].len() == 0 && levels[5].len() == 0 && levels[6].len() == 0);
}

} // verus!
