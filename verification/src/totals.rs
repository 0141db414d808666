//! The counters of a version against the tables that it names: bytes on
//! disk and entries, summed over the levels.

use vstd::prelude::*;
use crate::compaction_model::{gen_in, takes_whole_tables, with_gens};
use crate::compactor::{gens_of, major_edits, meta_of, scopes_of, MajorView};
use crate::scope::ScopeView;
use crate::store_model::{all_loaded, minor_edit, lemma_minor_successor, StoreView};
use crate::table::{has_table, lemma_table_of_after_push, table_of, tables_wf, TableView};
use crate::version::edit::VersionEditView;
use crate::version::meta::{TableMeta, VersionMeta};
use crate::version::model::{
    after_edit, after_edits, base_edits, edit_fits, empty_before, empty_version, gen_not_in,
    insert_all, insert_by_gen, lemma_after_edits_concat, lemma_base_edits_rebuild_levels,
    level_after_edit, levels_ordered,
    levels_sized, sort_by_gen, successor, without_gens, VersionView, LEVEL_COUNT,
};

verus! {

/// Bytes and entries, as numbers without bound.
pub struct Totals {
    pub size_of_disk: int,
    pub len: int,
}

impl Totals {
    pub open spec fn plus(self, other: Totals) -> Totals {
        Totals { size_of_disk: self.size_of_disk + other.size_of_disk, len: self.len + other.len }
    }

    pub open spec fn minus(self, other: Totals) -> Totals {
        Totals { size_of_disk: self.size_of_disk - other.size_of_disk, len: self.len - other.len }
    }
}

/// What the table of a scope counts: the size of its file and the number of
/// its entries; nothing where the table is not loaded.
pub open spec fn scope_totals(scope: ScopeView, tables: Seq<TableView>) -> Totals {
    match table_of(tables, scope.gen) {
        Some(table) => Totals {
            size_of_disk: table.size_of_disk as int,
            len: table.entries.len() as int,
        },
        None => Totals { size_of_disk: 0, len: 0 },
    }
}

/// What the tables of the scopes count together.
pub open spec fn level_totals(level: Seq<ScopeView>, tables: Seq<TableView>) -> Totals
    decreases level.len(),
{
    if level.len() == 0 {
        Totals { size_of_disk: 0, len: 0 }
    } else {
        level_totals(level.drop_last(), tables).plus(scope_totals(level.last(), tables))
    }
}

/// What the tables of all seven levels count together.
pub open spec fn all_totals(levels: Seq<Seq<ScopeView>>, tables: Seq<TableView>) -> Totals {
    level_totals(levels[0], tables).plus(level_totals(levels[1], tables)).plus(
        level_totals(levels[2], tables),
    ).plus(level_totals(levels[3], tables)).plus(level_totals(levels[4], tables)).plus(
        level_totals(levels[5], tables),
    ).plus(level_totals(levels[6], tables))
}

/// The counters of the version are what its tables count: `size_of_disk`
/// is the sum of the file sizes of all tables that the version names, and
/// `len` is the sum of their numbers of entries.
pub open spec fn counts_tables(version: VersionView, tables: Seq<TableView>) -> bool {
    let totals = all_totals(version.levels, tables);
    version.meta.size_of_disk == totals.size_of_disk && version.meta.len == totals.len
}

/// The counters that an edit carries are those of the tables that it puts
/// into its level or takes out of it.
pub open spec fn edit_counts_tables(
    levels: Seq<Seq<ScopeView>>,
    edit: VersionEditView,
    tables: Seq<TableView>,
) -> bool {
    match edit {
        VersionEditView::DeleteFile { gens, level, meta } => {
            let gone = level_totals(levels[level as int], tables).minus(
                level_totals(without_gens(levels[level as int], gens), tables),
            );
            meta.size_of_disk == gone.size_of_disk && meta.len == gone.len
        },
        VersionEditView::NewFile { scopes, meta, .. } => {
            let come = level_totals(scopes, tables);
            meta.size_of_disk == come.size_of_disk && meta.len == come.len
        },
    }
}

/// Each of the edits, when its turn comes, carries the counters of the
/// tables that it moves.
pub open spec fn edits_count_tables(
    version: VersionView,
    edits: Seq<VersionEditView>,
    tables: Seq<TableView>,
) -> bool
    decreases edits.len(),
{
    if edits.len() == 0 {
        true
    } else {
        &&& edits_count_tables(version, edits.drop_last(), tables)
        &&& after_edits(version, edits.drop_last()) matches Some(before) ==> edit_counts_tables(
            before.levels,
            edits.last(),
            tables,
        )
    }
}

proof fn lemma_level_totals_push(level: Seq<ScopeView>, scope: ScopeView, tables: Seq<TableView>)
    ensures
        level_totals(level.push(scope), tables) == level_totals(level, tables).plus(
            scope_totals(scope, tables),
        ),
{
    assert(level.push(scope).drop_last() =~= level);
}

proof fn lemma_level_totals_concat(a: Seq<ScopeView>, b: Seq<ScopeView>, tables: Seq<TableView>)
    ensures
        level_totals(a + b, tables) == level_totals(a, tables).plus(level_totals(b, tables)),
    decreases b.len(),
{
    if b.len() == 0 {
        assert(a + b =~= a);
    } else {
        lemma_level_totals_concat(a, b.drop_last(), tables);
        assert((a + b).drop_last() =~= a + b.drop_last());
        assert((a + b).last() == b.last());
    }
}

proof fn lemma_insert_by_gen_totals(sorted: Seq<ScopeView>, scope: ScopeView, tables: Seq<TableView>)
    ensures
        level_totals(insert_by_gen(sorted, scope), tables) == level_totals(sorted, tables).plus(
            scope_totals(scope, tables),
        ),
    decreases sorted.len(),
{
    if sorted.len() == 0 || sorted.last().gen <= scope.gen {
        lemma_level_totals_push(sorted, scope, tables);
    } else {
        lemma_insert_by_gen_totals(sorted.drop_last(), scope, tables);
        lemma_level_totals_push(insert_by_gen(sorted.drop_last(), scope), sorted.last(), tables);
    }
}

/// Sorting scopes by gen does not change what their tables count.
pub proof fn lemma_sort_by_gen_totals(scopes: Seq<ScopeView>, tables: Seq<TableView>)
    ensures
        level_totals(sort_by_gen(scopes), tables) == level_totals(scopes, tables),
    decreases scopes.len(),
{
    if scopes.len() > 0 {
        lemma_sort_by_gen_totals(scopes.drop_last(), tables);
        lemma_insert_by_gen_totals(sort_by_gen(scopes.drop_last()), scopes.last(), tables);
    }
}

/// One edit that carries the counters of the tables it moves keeps the
/// counters of the version equal to what its tables count.
pub proof fn lemma_edit_keeps_count(
    version: VersionView,
    edit: VersionEditView,
    tables: Seq<TableView>,
)
    requires
        counts_tables(version, tables),
        edit_counts_tables(version.levels, edit, tables),
        after_edit(version, edit) is Some,
    ensures
        counts_tables(after_edit(version, edit).unwrap(), tables),
{
    let after = after_edit(version, edit).unwrap();
    let depth = edit.level() as int;
    let level = version.levels[depth];
    assert forall|d: int| 0 <= d < LEVEL_COUNT && d != depth implies after.levels[d]
        == version.levels[d] by {}
    assert(after.levels[depth] == level_after_edit(level, edit));
    match edit {
        VersionEditView::DeleteFile { gens, .. } => {},
        VersionEditView::NewFile { scopes, index, .. } => {
            lemma_sort_by_gen_totals(scopes, tables);
            let sorted = sort_by_gen(scopes);
            if depth == 0 {
                lemma_level_totals_concat(level, sorted, tables);
            } else {
                let front = level.subrange(0, index as int);
                let back = level.subrange(index as int, level.len() as int);
                assert(front + back =~= level);
                lemma_level_totals_concat(front, back, tables);
                lemma_level_totals_concat(front, sorted, tables);
                lemma_level_totals_concat(front + sorted, back, tables);
            }
        },
    }
}

/// The counters of a version follow its tables: where `size_of_disk` and
/// `len` of a version are the sums over the tables that it names, and each
/// edit carries the counters of the tables that it moves, the same holds of
/// the successor.
pub proof fn lemma_successor_counts_tables(
    version: VersionView,
    edits: Seq<VersionEditView>,
    tables: Seq<TableView>,
)
    requires
        counts_tables(version, tables),
        edits_count_tables(version, edits, tables),
        successor(version, edits) is Some,
    ensures
        counts_tables(successor(version, edits).unwrap(), tables),
{
    lemma_after_edits_count(version, edits, tables);
}

proof fn lemma_after_edits_count(
    version: VersionView,
    edits: Seq<VersionEditView>,
    tables: Seq<TableView>,
)
    requires
        counts_tables(version, tables),
        edits_count_tables(version, edits, tables),
        after_edits(version, edits) is Some,
    ensures
        counts_tables(after_edits(version, edits).unwrap(), tables),
    decreases edits.len(),
{
    if edits.len() > 0 {
        lemma_after_edits_count(version, edits.drop_last(), tables);
        lemma_edit_keeps_count(
            after_edits(version, edits.drop_last()).unwrap(),
            edits.last(),
            tables,
        );
    }
}

proof fn lemma_level_totals_same_tables(
    level: Seq<ScopeView>,
    tables: Seq<TableView>,
    more: Seq<TableView>,
)
    requires
        forall|i: int|
            0 <= i < level.len() ==> table_of(more, (#[trigger] level[i]).gen) == table_of(
                tables,
                level[i].gen,
            ),
    ensures
        level_totals(level, more) == level_totals(level, tables),
    decreases level.len(),
{
    if level.len() > 0 {
        let front = level.drop_last();
        assert forall|i: int| 0 <= i < front.len() implies table_of(more, (#[trigger] front[i]).gen)
            == table_of(tables, front[i].gen) by {
            assert(front[i] == level[i]);
        }
        lemma_level_totals_same_tables(front, tables, more);
        assert(level.last() == level[level.len() - 1]);
    }
}

/// Installing the frozen run as a table keeps the counters of the version
/// equal to what its tables count.
pub proof fn lemma_install_keeps_count(store: StoreView, gen: i64, size_of_disk: u64)
    requires
        store.wf(),
        store.can_install(gen, size_of_disk),
        store.mem.frozen.unwrap().len() <= usize::MAX,
        counts_tables(store.version, store.tables),
    ensures
        counts_tables(
            store.installed(gen, size_of_disk).version,
            store.installed(gen, size_of_disk).tables,
        ),
{
    let table = store.frozen_table(gen, size_of_disk);
    let after = store.installed(gen, size_of_disk);
    let levels = store.version.levels;
    lemma_minor_successor(store.version, table);
    lemma_table_of_after_push(store.tables, table, gen);
    assert forall|d: int, i: int| 0 <= d < LEVEL_COUNT && 0 <= i < levels[d].len() implies table_of(
        after.tables,
        (#[trigger] levels[d][i]).gen,
    ) == table_of(store.tables, levels[d][i].gen) by {
        assert(has_table(store.tables, levels[d][i].gen));
        lemma_table_of_after_push(store.tables, table, levels[d][i].gen);
    }
    lemma_level_totals_same_tables(levels[0], store.tables, after.tables);
    lemma_level_totals_same_tables(levels[1], store.tables, after.tables);
    lemma_level_totals_same_tables(levels[2], store.tables, after.tables);
    lemma_level_totals_same_tables(levels[3], store.tables, after.tables);
    lemma_level_totals_same_tables(levels[4], store.tables, after.tables);
    lemma_level_totals_same_tables(levels[5], store.tables, after.tables);
    lemma_level_totals_same_tables(levels[6], store.tables, after.tables);
    lemma_level_totals_push(levels[0], table.scope(), after.tables);
    assert(after.version.levels[0] == levels[0].push(table.scope()));
    assert forall|d: int| 1 <= d < LEVEL_COUNT implies after.version.levels[d] == levels[d] by {}
    assert(scope_totals(table.scope(), after.tables) == (Totals {
        size_of_disk: size_of_disk as int,
        len: table.entries.len() as int,
    }));
}

/// What the tables of a level count is what those with gens among `gens`
/// count and what the others count.
pub proof fn lemma_level_totals_split(level: Seq<ScopeView>, gens: Seq<i64>, tables: Seq<TableView>)
    ensures
        level_totals(level, tables) == level_totals(without_gens(level, gens), tables).plus(
            level_totals(with_gens(level, gens), tables),
        ),
    decreases level.len(),
{
    reveal(Seq::filter);
    if level.len() > 0 {
        let front = level.drop_last();
        let last = level.last();
        lemma_level_totals_split(front, gens, tables);
        front.lemma_filter_push(last, gen_in(gens));
        front.lemma_filter_push(last, gen_not_in(gens));
        assert(front.push(last) =~= level);
        let kept = without_gens(front, gens);
        let taken = with_gens(front, gens);
        if gens.contains(last.gen) {
            assert(taken.push(last).drop_last() =~= taken);
        } else {
            assert(kept.push(last).drop_last() =~= kept);
        }
    }
}

/// The tables that the levels name count the same among other tables, as
/// long as each gen that the levels name finds the same table.
pub proof fn lemma_all_totals_same_tables(
    levels: Seq<Seq<ScopeView>>,
    tables: Seq<TableView>,
    more: Seq<TableView>,
)
    requires
        levels.len() == LEVEL_COUNT,
        forall|d: int, i: int|
            0 <= d < LEVEL_COUNT && 0 <= i < levels[d].len() ==> table_of(
                more,
                (#[trigger] levels[d][i]).gen,
            ) == table_of(tables, levels[d][i].gen),
    ensures
        all_totals(levels, more) == all_totals(levels, tables),
{
    lemma_level_totals_same_tables(levels[0], tables, more);
    lemma_level_totals_same_tables(levels[1], tables, more);
    lemma_level_totals_same_tables(levels[2], tables, more);
    lemma_level_totals_same_tables(levels[3], tables, more);
    lemma_level_totals_same_tables(levels[4], tables, more);
    lemma_level_totals_same_tables(levels[5], tables, more);
    lemma_level_totals_same_tables(levels[6], tables, more);
}

/// Tables count no less than nothing.
pub proof fn lemma_level_totals_not_negative(level: Seq<ScopeView>, tables: Seq<TableView>)
    ensures
        level_totals(level, tables).size_of_disk >= 0,
        level_totals(level, tables).len >= 0,
    decreases level.len(),
{
    if level.len() > 0 {
        lemma_level_totals_not_negative(level.drop_last(), tables);
    }
}

/// The edits of a major compaction that takes whole tables carry the
/// counters of the tables that they move.
pub proof fn lemma_major_edits_count(
    version: VersionView,
    plan: MajorView,
    new_gens: Seq<i64>,
    tables: Seq<TableView>,
)
    requires
        version.levels.len() == LEVEL_COUNT,
        takes_whole_tables(version.levels, plan),
        major_edits(plan, new_gens, tables) is Some,
    ensures
        edits_count_tables(version, major_edits(plan, new_gens, tables).unwrap(), tables),
{
    let edits = major_edits(plan, new_gens, tables).unwrap();
    let k = plan.level as int;
    let above = version.levels[k];
    let below = version.levels[k + 1];
    let scopes = scopes_of(new_gens, tables).unwrap();
    let first = edits[0];
    let second = edits[1];
    let third = edits[2];
    let one = edits.drop_last().drop_last();
    let two = edits.drop_last();
    assert(one =~= seq![first]);
    assert(two =~= seq![first, second]);
    assert(one.drop_last() =~= Seq::<VersionEditView>::empty());
    assert(one.last() == first);
    assert(two.last() == second);
    assert(edits.last() == third);
    lemma_level_totals_split(above, gens_of(plan.upper), tables);
    lemma_level_totals_split(below, gens_of(plan.lower), tables);
    lemma_level_totals_not_negative(plan.upper, tables);
    lemma_level_totals_not_negative(plan.lower, tables);
    lemma_level_totals_not_negative(scopes, tables);
    assert(first == VersionEditView::DeleteFile {
        gens: gens_of(plan.upper),
        level: plan.level,
        meta: meta_of(plan.upper, tables).unwrap(),
    });
    assert(second == VersionEditView::DeleteFile {
        gens: gens_of(plan.lower),
        level: (plan.level + 1) as usize,
        meta: meta_of(plan.lower, tables).unwrap(),
    });
    assert(with_gens(above, gens_of(plan.upper)) == plan.upper);
    assert(with_gens(below, gens_of(plan.lower)) == plan.lower);
    // the first edit takes the chosen tables out of their level
    assert(after_edits(version, one.drop_last()) == Some(version));
    assert(edit_counts_tables(version.levels, first, tables));
    assert(edits_count_tables(version, one.drop_last(), tables));
    assert(edits_count_tables(version, one, tables));
    // the second edit finds the next level as it was
    assert(after_edits(version, one) == after_edit(version, first));
    if after_edits(version, one) is Some {
        let before = after_edits(version, one).unwrap();
        assert(before.levels[k + 1] == below);
        assert(edit_counts_tables(before.levels, second, tables));
    }
    assert(edits_count_tables(version, two, tables));
    // the third edit brings the new tables
    assert(meta_of(scopes, tables) is Some);
    if after_edits(version, two) is Some {
        assert(edit_counts_tables(after_edits(version, two).unwrap().levels, third, tables));
    }
}

/// What the tables of the first `depth` levels count together.
pub open spec fn totals_upto(levels: Seq<Seq<ScopeView>>, tables: Seq<TableView>, depth: nat)
    -> Totals
    decreases depth,
{
    if depth == 0 {
        Totals { size_of_disk: 0, len: 0 }
    } else {
        totals_upto(levels, tables, (depth - 1) as nat).plus(
            level_totals(levels[depth - 1], tables),
        )
    }
}

/// The tables of all levels count what the levels count one after the
/// other, and the first levels count no more than all of them.
pub proof fn lemma_totals_upto(levels: Seq<Seq<ScopeView>>, tables: Seq<TableView>, depth: nat)
    requires
        depth <= LEVEL_COUNT,
    ensures
        totals_upto(levels, tables, LEVEL_COUNT as nat) == all_totals(levels, tables),
        0 <= totals_upto(levels, tables, depth).size_of_disk <= all_totals(
            levels,
            tables,
        ).size_of_disk,
        0 <= totals_upto(levels, tables, depth).len <= all_totals(levels, tables).len,
{
    lemma_level_totals_not_negative(levels[0], tables);
    lemma_level_totals_not_negative(levels[1], tables);
    lemma_level_totals_not_negative(levels[2], tables);
    lemma_level_totals_not_negative(levels[3], tables);
    lemma_level_totals_not_negative(levels[4], tables);
    lemma_level_totals_not_negative(levels[5], tables);
    lemma_level_totals_not_negative(levels[6], tables);
    reveal_with_fuel(totals_upto, 8);
}

/// A version that is written out as edits and rebuilt from them counts
/// what its tables count, if it did before.
pub proof fn lemma_rebuilt_version_counts_tables(version: VersionView, tables: Seq<TableView>)
    requires
        levels_ordered(version.levels),
        levels_sized(version.levels),
        counts_tables(version, tables),
    ensures
        successor(empty_version(), base_edits(version)) matches Some(rebuilt) && counts_tables(
            rebuilt,
            tables,
        ),
{
    lemma_base_edits_rebuild_levels(version);
    let levels = version.levels;
    if empty_before(levels, LEVEL_COUNT as int) {
        assert(levels[0].len() == 0 && levels[1].len() == 0 && levels[2].len() == 0
            && levels[3].len() == 0 && levels[4].len() == 0 && levels[5].len() == 0
            && levels[6].len() == 0);
    }
}

/// Whether a log that begins with `version` written out as edits, with
/// the edits `later` behind them, counts its tables: the counters of the
/// version were what its tables count, and each of the later edits, when
/// its turn comes, carries the counters of the tables that it moves.
pub open spec fn snapshot_log_counts(
    version: VersionView,
    later: Seq<VersionEditView>,
    tables: Seq<TableView>,
) -> bool {
    &&& levels_ordered(version.levels)
    &&& levels_sized(version.levels)
    &&& counts_tables(version, tables)
    &&& after_edits(empty_version(), base_edits(version)) matches Some(rebuilt)
        && edits_count_tables(rebuilt, later, tables)
}

/// The version that is loaded from a log which begins with a version
/// written out counts what its tables count, where the log counts its
/// tables.
pub proof fn lemma_snapshot_log_counts_tables(
    version: VersionView,
    later: Seq<VersionEditView>,
    tables: Seq<TableView>,
)
    requires
        snapshot_log_counts(version, later, tables),
        successor(empty_version(), base_edits(version) + later) is Some,
    ensures
        counts_tables(successor(empty_version(), base_edits(version) + later).unwrap(), tables),
{
    lemma_rebuilt_version_counts_tables(version, tables);
    let rebuilt = after_edits(empty_version(), base_edits(version)).unwrap();
    lemma_after_edits_concat(empty_version(), base_edits(version), later);
    assert(counts_tables(rebuilt, tables));
    lemma_after_edits_count(rebuilt, later, tables);
}

} // verus!
