//! What a major compaction does to a reader: nothing, as long as the tables
//! that it takes out of their levels are the only ones, in these levels,
//! that hold their keys.

use vstd::prelude::*;
use crate::keys::{key_le, key_lt};
use crate::keys::{lemma_key_le_iff_not_gt, lemma_key_le_transitive, lemma_key_lt_asymmetric};
use crate::run::{entry_at, has_key, is_run, EntryView};
use crate::scope::{fusion_of, lemma_fusion_covers, level_ordered, ScopeView};
use crate::table::{lemma_table_scope_holds_keys, table_of, TableView};
use crate::compactor::{
    gens_of, is_kept, is_spent, latest_entry, lemma_cut_keeps_all, major_plan, meets_target,
    widened,
    lemma_merged_finds_latest, major_edits, major_inputs, major_output, merged, run_of, runs_of,
    scopes_of, MajorView,
};
use crate::run::{lemma_run_concat, lemma_run_filter};
use crate::store_model::{shown, StoreView};
use crate::version::model::lemma_sort_by_gen_permutes;
use crate::version::edit::VersionEditView;
use crate::version::model::{
    after_edit, after_edits, gen_not_in, insert_all, lemma_meet_index_in_level,
    lemma_meet_index_is, levels_ordered, meet_index, query_deeper, query_level_0, query_tables,
    sort_by_gen, successor, table_value, without_gens, VersionView, LEVEL_COUNT,
};

verus! {

/// The first of two answers, or the second where there is no first.
pub open spec fn or_else(first: Option<Seq<u8>>, second: Option<Seq<u8>>) -> Option<Seq<u8>> {
    match first {
        Some(value) => Some(value),
        None => second,
    }
}

/// What a scope answers for a key when it is read: the value that its
/// table holds, if the scope holds the key.
pub open spec fn answer(scope: ScopeView, tables: Seq<TableView>, key: Seq<u8>) -> Option<Seq<u8>> {
    if scope.holds(key) {
        table_value(tables, scope.gen, key)
    } else {
        None
    }
}

/// The scope is that of its table, which is loaded and well formed.
pub open spec fn fits(scope: ScopeView, tables: Seq<TableView>) -> bool {
    table_of(tables, scope.gen) matches Some(table) && table.wf() && table.scope() == scope
}

/// Every scope of the level is that of its table.
pub open spec fn level_fits(level: Seq<ScopeView>, tables: Seq<TableView>) -> bool {
    forall|i: int| 0 <= i < level.len() ==> fits(#[trigger] level[i], tables)
}

/// A scope that fits its table answers whatever the table holds.
pub proof fn lemma_fitting_scope_answers(scope: ScopeView, tables: Seq<TableView>, key: Seq<u8>)
    requires
        fits(scope, tables),
    ensures
        answer(scope, tables, key) == table_value(tables, scope.gen, key),
{
    let table = table_of(tables, scope.gen).unwrap();
    if has_key(table.entries, key) {
        lemma_table_scope_holds_keys(table, key);
    }
}

/// A level in which no scope answers for a key answers nothing; a level
/// that answers has a scope that gives this answer.
pub proof fn lemma_scan_answers(level: Seq<ScopeView>, tables: Seq<TableView>, key: Seq<u8>)
    ensures
        query_level_0(level, tables, key) is None <==> forall|i: int|
            0 <= i < level.len() ==> answer(#[trigger] level[i], tables, key) is None,
        query_level_0(level, tables, key) is Some ==> exists|i: int|
            0 <= i < level.len() && answer(#[trigger] level[i], tables, key) == query_level_0(
                level,
                tables,
                key,
            ),
    decreases level.len(),
{
    if level.len() > 0 {
        let front = level.drop_last();
        lemma_scan_answers(front, tables, key);
        let last = level.len() - 1;
        if answer(level.last(), tables, key) is Some {
            assert(answer(level[last], tables, key) == query_level_0(level, tables, key));
        } else {
            assert forall|i: int| 0 <= i < front.len() implies front[i] == level[i] by {}
            if query_level_0(front, tables, key) is Some {
                let i = choose|i: int|
                    0 <= i < front.len() && answer(#[trigger] front[i], tables, key)
                        == query_level_0(front, tables, key);
                assert(answer(level[i], tables, key) == query_level_0(level, tables, key));
            } else {
                assert forall|i: int| 0 <= i < level.len() implies answer(
                    #[trigger] level[i],
                    tables,
                    key,
                ) is None by {
                    if i < front.len() {
                        assert(answer(front[i], tables, key) is None);
                    }
                }
            }
        }
        if forall|i: int| 0 <= i < level.len() ==> answer(#[trigger] level[i], tables, key) is None {
            assert(answer(level[last], tables, key) is None);
            assert forall|i: int| 0 <= i < front.len() implies answer(
                #[trigger] front[i],
                tables,
                key,
            ) is None by {
                assert(front[i] == level[i]);
            }
        }
    }
}

/// Where one scope alone answers for a key, the level answers what that
/// scope answers.
pub proof fn lemma_scan_single(level: Seq<ScopeView>, tables: Seq<TableView>, key: Seq<u8>, at: int)
    requires
        0 <= at < level.len(),
        forall|i: int|
            0 <= i < level.len() && i != at ==> answer(#[trigger] level[i], tables, key) is None,
    ensures
        query_level_0(level, tables, key) == answer(level[at], tables, key),
    decreases level.len(),
{
    let front = level.drop_last();
    let last = level.len() - 1;
    if at == last {
        lemma_scan_answers(front, tables, key);
        assert forall|i: int| 0 <= i < front.len() implies answer(
            #[trigger] front[i],
            tables,
            key,
        ) is None by {
            assert(front[i] == level[i]);
        }
    } else {
        assert(answer(level[last], tables, key) is None);
        assert forall|i: int| 0 <= i < front.len() && i != at implies answer(
            #[trigger] front[i],
            tables,
            key,
        ) is None by {
            assert(front[i] == level[i]);
        }
        lemma_scan_single(front, tables, key, at);
        assert(front[at] == level[at]);
    }
}

/// In an ordered level, the one table that `meet_index` names is the only
/// one whose scope can hold the key: reading that table is reading the
/// whole level.
pub proof fn lemma_candidate_is_scan(level: Seq<ScopeView>, tables: Seq<TableView>, key: Seq<u8>)
    requires
        level_ordered(level),
        level_fits(level, tables),
        level.len() > 0,
    ensures
        table_value(tables, level[meet_index(level, key)].gen, key) == query_level_0(
            level,
            tables,
            key,
        ),
{
    lemma_meet_index_in_level(level, key);
    let at = meet_index(level, key);
    assert(fits(level[at], tables));
    lemma_fitting_scope_answers(level[at], tables, key);
    assert forall|i: int| 0 <= i < level.len() && i != at implies answer(
        #[trigger] level[i],
        tables,
        key,
    ) is None by {
        if level[i].holds(key) {
            // the scope starts at or before the key, so it is not behind the
            // one that `meet_index` names; and it ends at or after the key,
            // so it is not before it
            assert(key_le(level[i].start, key));
            lemma_meet_index_holder(level, key, i);
        }
    }
    lemma_scan_single(level, tables, key, at);
}

/// In an ordered level, a scope that holds a key is the one that
/// `meet_index` names.
pub proof fn lemma_meet_index_holder(level: Seq<ScopeView>, key: Seq<u8>, at: int)
    requires
        level_ordered(level),
        0 <= at < level.len(),
        level[at].holds(key),
    ensures
        meet_index(level, key) == at,
{
    assert forall|j: int| at < j < level.len() implies !key_le(#[trigger] level[j].start, key) by {
        assert(key_lt(level[at].end, level[j].start));
        if key_le(level[j].start, key) {
            lemma_key_le_transitive(level[j].start, key, level[at].end);
            lemma_key_le_iff_not_gt(level[j].start, level[at].end);
        }
    }
    lemma_meet_index_is(level, key, at);
}

/// What the levels from `depth` on answer when each level is read as a
/// whole, from its last scope to its first.
pub open spec fn scan_deeper(
    levels: Seq<Seq<ScopeView>>,
    tables: Seq<TableView>,
    key: Seq<u8>,
    depth: int,
) -> Option<Seq<u8>>
    decreases LEVEL_COUNT - depth,
{
    if depth < 0 || depth >= LEVEL_COUNT {
        None
    } else {
        or_else(
            query_level_0(levels[depth], tables, key),
            scan_deeper(levels, tables, key, depth + 1),
        )
    }
}

/// Every scope of every level is that of its table.
pub open spec fn levels_fit(levels: Seq<Seq<ScopeView>>, tables: Seq<TableView>) -> bool {
    forall|depth: int| 0 <= depth < levels.len() ==> level_fits(#[trigger] levels[depth], tables)
}

/// Where the levels are in order and every scope is that of its table,
/// reading the one table of each deeper level that may hold the key is
/// reading each level as a whole.
pub proof fn lemma_query_deeper_is_scan(
    levels: Seq<Seq<ScopeView>>,
    tables: Seq<TableView>,
    key: Seq<u8>,
    depth: int,
)
    requires
        levels_ordered(levels),
        levels_fit(levels, tables),
        1 <= depth <= LEVEL_COUNT,
    ensures
        query_deeper(levels, tables, key, depth) == scan_deeper(levels, tables, key, depth),
    decreases LEVEL_COUNT - depth,
{
    if depth < LEVEL_COUNT {
        lemma_query_deeper_is_scan(levels, tables, key, depth + 1);
        let level = levels[depth];
        let hit = if level.len() == 0 {
            None
        } else {
            table_value(tables, level[meet_index(level, key)].gen, key)
        };
        assert(hit == query_level_0(level, tables, key)) by {
            assert(level_fits(level, tables));
            assert(level_ordered(level));
            if level.len() > 0 {
                lemma_candidate_is_scan(level, tables, key);
            }
        }
        assert(query_deeper(levels, tables, key, depth) == or_else(
            hit,
            query_deeper(levels, tables, key, depth + 1),
        ));
    }
}

/// Where the levels are in order and every scope is that of its table,
/// what the tables hold for a key is what the levels answer when each is
/// read as a whole, level 0 first.
pub proof fn lemma_query_is_scan(levels: Seq<Seq<ScopeView>>, tables: Seq<TableView>, key: Seq<u8>)
    requires
        levels_ordered(levels),
        levels_fit(levels, tables),
    ensures
        query_tables(levels, tables, key) == scan_deeper(levels, tables, key, 0),
{
    lemma_query_deeper_is_scan(levels, tables, key, 1);
}

/// The test that a scope passes when its gen is among `gens`.
pub open spec fn gen_in(gens: Seq<i64>) -> spec_fn(ScopeView) -> bool {
    |scope: ScopeView| gens.contains(scope.gen)
}

/// The scopes of `level` whose gen is among `gens`, in their order.
pub open spec fn with_gens(level: Seq<ScopeView>, gens: Seq<i64>) -> Seq<ScopeView> {
    level.filter(gen_in(gens))
}

/// No scope with a gen among `gens` and scope with another gen both answer
/// for the key.
pub open spec fn apart(level: Seq<ScopeView>, gens: Seq<i64>, tables: Seq<TableView>, key: Seq<u8>)
    -> bool {
    forall|i: int, j: int|
        0 <= i < level.len() && 0 <= j < level.len() && gens.contains(level[i].gen)
            && !gens.contains(level[j].gen) ==> !(answer(#[trigger] level[i], tables, key) is Some
            && answer(#[trigger] level[j], tables, key) is Some)
}

/// No scope with a gen among `gens` answers for the key while a scope with
/// another gen that stands before it in the level, and so is read after
/// it, answers too.
pub open spec fn hides_none(
    level: Seq<ScopeView>,
    gens: Seq<i64>,
    tables: Seq<TableView>,
    key: Seq<u8>,
) -> bool {
    forall|i: int, j: int|
        0 <= j < i < level.len() && gens.contains(level[i].gen) && !gens.contains(level[j].gen)
            ==> !(answer(#[trigger] level[i], tables, key) is Some && answer(
            #[trigger] level[j],
            tables,
            key,
        ) is Some)
}

/// Scopes that are apart from the others hide none of them.
pub proof fn lemma_apart_hides_none(
    level: Seq<ScopeView>,
    gens: Seq<i64>,
    tables: Seq<TableView>,
    key: Seq<u8>,
)
    requires
        apart(level, gens, tables, key),
    ensures
        hides_none(level, gens, tables, key),
{
}

/// Where no scope with a gen among `gens` answers for a key for which a
/// scope before it with another gen answers, reading the level is reading
/// the others and, where they answer nothing, the scopes with these gens.
pub proof fn lemma_scan_split(
    level: Seq<ScopeView>,
    gens: Seq<i64>,
    tables: Seq<TableView>,
    key: Seq<u8>,
)
    requires
        hides_none(level, gens, tables, key),
    ensures
        query_level_0(level, tables, key) == or_else(
            query_level_0(without_gens(level, gens), tables, key),
            query_level_0(with_gens(level, gens), tables, key),
        ),
    decreases level.len(),
{
    reveal(Seq::filter);
    if level.len() > 0 {
        let front = level.drop_last();
        let last = level.last();
        let at = level.len() - 1;
        assert forall|i: int, j: int|
            0 <= j < i < front.len() && gens.contains(front[i].gen) && !gens.contains(
                front[j].gen,
            ) implies !(answer(#[trigger] front[i], tables, key) is Some && answer(
            #[trigger] front[j],
            tables,
            key,
        ) is Some) by {
            assert(front[i] == level[i]);
            assert(front[j] == level[j]);
        }
        lemma_scan_split(front, gens, tables, key);
        front.lemma_filter_push(last, gen_in(gens));
        front.lemma_filter_push(last, gen_not_in(gens));
        assert(front.push(last) =~= level);
        let kept = without_gens(front, gens);
        let taken = with_gens(front, gens);
        if answer(last, tables, key) is Some {
            if gens.contains(last.gen) {
                // no scope that stays answers: each of them stands before
                lemma_scan_answers(kept, tables, key);
                assert forall|i: int| 0 <= i < kept.len() implies answer(
                    #[trigger] kept[i],
                    tables,
                    key,
                ) is None by {
                    lemma_filter_member(front, gen_not_in(gens), i);
                    let j = choose|j: int| 0 <= j < front.len() && front[j] == kept[i];
                    assert(level[j] == kept[i]);
                    assert(!gens.contains(level[j].gen));
                    assert(answer(level[at], tables, key) is Some);
                }
                assert(taken.push(last).drop_last() =~= taken);
            } else {
                // the last scope stays and answers, whatever the others hold
                assert(kept.push(last).drop_last() =~= kept);
            }
        } else {
            if gens.contains(last.gen) {
                assert(taken.push(last).drop_last() =~= taken);
            } else {
                assert(kept.push(last).drop_last() =~= kept);
            }
        }
    }
}

/// Each scope that passes a filter is a scope of the level, and passes the
/// test.
pub proof fn lemma_filter_member(level: Seq<ScopeView>, test: spec_fn(ScopeView) -> bool, at: int)
    requires
        0 <= at < level.filter(test).len(),
    ensures
        exists|j: int| 0 <= j < level.len() && level[j] == level.filter(test)[at],
        test(level.filter(test)[at]),
    decreases level.len(),
{
    reveal(Seq::filter);
    if level.len() > 0 {
        let front = level.drop_last();
        if test(level.last()) && at == front.filter(test).len() {
            assert(level[level.len() - 1] == level.filter(test)[at]);
        } else {
            lemma_filter_member(front, test, at);
            let j = choose|j: int| 0 <= j < front.len() && front[j] == front.filter(test)[at];
            assert(level[j] == level.filter(test)[at]);
        }
    }
}

/// Each scope of the level that passes the test passes the filter.
pub proof fn lemma_member_filter(level: Seq<ScopeView>, test: spec_fn(ScopeView) -> bool, at: int)
    requires
        0 <= at < level.len(),
        test(level[at]),
    ensures
        exists|j: int| 0 <= j < level.filter(test).len() && level.filter(test)[j] == level[at],
    decreases level.len(),
{
    reveal(Seq::filter);
    let front = level.drop_last();
    if at == level.len() - 1 {
        let j = front.filter(test).len() as int;
        assert(level.filter(test)[j] == level[at]);
    } else {
        lemma_member_filter(front, test, at);
        let j = choose|j: int| 0 <= j < front.filter(test).len() && front.filter(test)[j]
            == front[at];
        assert(level.filter(test)[j] == level[at]);
    }
}

/// All scopes of the level that answer for the key give the same answer.
pub open spec fn agree(level: Seq<ScopeView>, tables: Seq<TableView>, key: Seq<u8>) -> bool {
    forall|i: int, j: int|
        0 <= i < level.len() && 0 <= j < level.len() && answer(
            #[trigger] level[i],
            tables,
            key,
        ) is Some && answer(#[trigger] level[j], tables, key) is Some ==> answer(
            level[i],
            tables,
            key,
        ) == answer(level[j], tables, key)
}

/// Where all answers agree, the level answers what any of its scopes
/// answers.
pub proof fn lemma_scan_of_agreeing(
    level: Seq<ScopeView>,
    tables: Seq<TableView>,
    key: Seq<u8>,
    at: int,
)
    requires
        agree(level, tables, key),
        0 <= at < level.len(),
        answer(level[at], tables, key) is Some,
    ensures
        query_level_0(level, tables, key) == answer(level[at], tables, key),
{
    lemma_scan_answers(level, tables, key);
    let i = choose|i: int|
        0 <= i < level.len() && answer(#[trigger] level[i], tables, key) == query_level_0(
            level,
            tables,
            key,
        );
    assert(answer(level[i], tables, key) == answer(level[at], tables, key));
}

/// In an ordered level whose scopes are those of their tables, at most one
/// scope answers for a key.
pub proof fn lemma_ordered_level_agrees(level: Seq<ScopeView>, tables: Seq<TableView>, key: Seq<u8>)
    requires
        level_ordered(level),
    ensures
        agree(level, tables, key),
        forall|i: int, j: int|
            0 <= i < level.len() && 0 <= j < level.len() && i != j ==> !(answer(
                #[trigger] level[i],
                tables,
                key,
            ) is Some && answer(#[trigger] level[j], tables, key) is Some),
{
    assert forall|i: int, j: int|
        0 <= i < level.len() && 0 <= j < level.len() && i != j implies !(answer(
        #[trigger] level[i],
        tables,
        key,
    ) is Some && answer(#[trigger] level[j], tables, key) is Some) by {
        if level[i].holds(key) && level[j].holds(key) {
            lemma_meet_index_holder(level, key, i);
            lemma_meet_index_holder(level, key, j);
        }
    }
}

/// The levels after the edits of a major compaction: the level of the
/// choice without the tables chosen from it, the next level without the
/// tables chosen from it and with the new tables at the place of the
/// choice, and every other level as it was.
pub proof fn lemma_major_levels(
    version: VersionView,
    plan: MajorView,
    new_gens: Seq<i64>,
    tables: Seq<TableView>,
)
    requires
        levels_ordered(version.levels),
        major_edits(plan, new_gens, tables) is Some,
        successor(version, major_edits(plan, new_gens, tables).unwrap()) is Some,
    ensures
        ({
            let after = successor(version, major_edits(plan, new_gens, tables).unwrap()).unwrap();
            let k = plan.level as int;
            let new_scopes = scopes_of(new_gens, tables).unwrap();
            &&& k + 1 < LEVEL_COUNT
            &&& scopes_of(new_gens, tables) is Some
            &&& levels_ordered(after.levels)
            &&& forall|d: int|
                0 <= d < LEVEL_COUNT && d != k && d != k + 1 ==> #[trigger] after.levels[d]
                    == version.levels[d]
            &&& after.levels[k] == without_gens(version.levels[k], gens_of(plan.upper))
            &&& plan.index <= without_gens(version.levels[k + 1], gens_of(plan.lower)).len()
            &&& after.levels[k + 1] == insert_all(
                without_gens(version.levels[k + 1], gens_of(plan.lower)),
                plan.index as int,
                sort_by_gen(new_scopes),
            )
        }),
{
    let edits = major_edits(plan, new_gens, tables).unwrap();
    let k = plan.level as int;
    let one = edits.drop_last().drop_last();
    let two = edits.drop_last();
    assert(one.drop_last() =~= Seq::<VersionEditView>::empty());
    assert(one.last() == edits[0]);
    assert(two.last() == edits[1]);
    assert(edits.last() == edits[2]);
    assert(after_edits(version, one.drop_last()) == Some(version));
    let first = after_edits(version, one);
    assert(first == after_edit(version, edits[0]));
    let second = after_edits(version, two);
    assert(second == match first {
        Some(state) => after_edit(state, edits[1]),
        None => None,
    });
    let third = after_edits(version, edits);
    assert(third == match second {
        Some(state) => after_edit(state, edits[2]),
        None => None,
    });
    assert(third is Some);
    assert(first.unwrap().levels =~= version.levels.update(
        k,
        without_gens(version.levels[k], gens_of(plan.upper)),
    ));
    assert(second.unwrap().levels =~= first.unwrap().levels.update(
        k + 1,
        without_gens(version.levels[k + 1], gens_of(plan.lower)),
    ));
    assert(crate::version::model::edit_fits(second.unwrap().levels, edits[2]));
}

/// The value of an entry that was found.
pub open spec fn found_value(entry: Option<EntryView>) -> Option<Seq<u8>> {
    match entry {
        Some(entry) => Some(entry.cmd.value()),
        None => None,
    }
}

/// Reading scopes that are those of their tables, from the last to the
/// first, finds what the last of their tables that holds the key finds.
pub proof fn lemma_scan_is_latest(scopes: Seq<ScopeView>, tables: Seq<TableView>, key: Seq<u8>)
    requires
        level_fits(scopes, tables),
    ensures
        query_level_0(scopes, tables, key) == found_value(
            latest_entry(runs_of(scopes, tables), key),
        ),
    decreases scopes.len(),
{
    let runs = runs_of(scopes, tables);
    if scopes.len() > 0 {
        let front = scopes.drop_last();
        assert forall|i: int| 0 <= i < front.len() implies fits(#[trigger] front[i], tables) by {
            assert(front[i] == scopes[i]);
        }
        lemma_scan_is_latest(front, tables, key);
        assert(runs.drop_last() =~= runs_of(front, tables));
        assert(runs.last() == run_of(scopes.last(), tables));
        assert(fits(scopes[scopes.len() - 1], tables));
        lemma_fitting_scope_answers(scopes.last(), tables, key);
    }
}

/// Of runs put behind other runs, the last that holds a key is the last
/// of those behind that holds it, or else the last of the others.
pub proof fn lemma_latest_concat(
    first: Seq<Seq<EntryView>>,
    second: Seq<Seq<EntryView>>,
    key: Seq<u8>,
)
    ensures
        latest_entry(first + second, key) == match latest_entry(second, key) {
            Some(entry) => Some(entry),
            None => latest_entry(first, key),
        },
    decreases second.len(),
{
    if second.len() == 0 {
        assert(first + second =~= first);
    } else {
        lemma_latest_concat(first, second.drop_last(), key);
        assert((first + second).drop_last() =~= first + second.drop_last());
        assert((first + second).last() == second.last());
    }
}

/// Where tables, one behind the other, make a run, each of them is a run,
/// and the whole run finds under a key what the one table finds that holds
/// the key.
pub proof fn lemma_chunks_find(chunks: Seq<Seq<EntryView>>, key: Seq<u8>)
    requires
        is_run(chunks.flatten_alt()),
    ensures
        forall|i: int| 0 <= i < chunks.len() ==> is_run(#[trigger] chunks[i]),
        entry_at(chunks.flatten_alt(), key) == latest_entry(chunks, key),
    decreases chunks.len(),
{
    if chunks.len() > 0 {
        let front = chunks.drop_last();
        lemma_run_concat(front.flatten_alt(), chunks.last(), key);
        lemma_chunks_find(front, key);
        assert forall|i: int| 0 <= i < chunks.len() implies is_run(#[trigger] chunks[i]) by {
            if i < front.len() {
                assert(front[i] == chunks[i]);
            }
        }
    }
}

/// The scopes of the loaded tables with these gens are the scopes of these
/// tables, one for each gen.
pub proof fn lemma_scopes_of(gens: Seq<i64>, tables: Seq<TableView>)
    requires
        scopes_of(gens, tables) is Some,
    ensures
        scopes_of(gens, tables).unwrap().len() == gens.len(),
        forall|i: int|
            0 <= i < gens.len() ==> (table_of(tables, #[trigger] gens[i]) matches Some(table)
                && scopes_of(gens, tables).unwrap()[i] == table.scope()),
    decreases gens.len(),
{
    if gens.len() > 0 {
        let front = gens.drop_last();
        lemma_scopes_of(front, tables);
        let scopes = scopes_of(gens, tables).unwrap();
        assert forall|i: int| 0 <= i < gens.len() implies (table_of(
            tables,
            #[trigger] gens[i],
        ) matches Some(table) && scopes[i] == table.scope()) by {
            if i < front.len() {
                assert(front[i] == gens[i]);
            }
        }
    }
}

/// The scopes of a level with scopes put in are the scopes of the level
/// and the scopes put in.
pub proof fn lemma_insert_all_members(level: Seq<ScopeView>, index: int, scopes: Seq<ScopeView>)
    requires
        0 <= index <= level.len(),
    ensures
        forall|scope: ScopeView|
            #[trigger] insert_all(level, index, scopes).contains(scope) <==> level.contains(scope)
                || scopes.contains(scope),
{
    let whole = insert_all(level, index, scopes);
    assert forall|scope: ScopeView| #[trigger] whole.contains(scope) <==> level.contains(scope)
        || scopes.contains(scope) by {
        if whole.contains(scope) {
            let j = choose|j: int| 0 <= j < whole.len() && whole[j] == scope;
            if j < index {
                assert(level[j] == scope);
            } else if j < index + scopes.len() {
                assert(scopes[j - index] == scope);
            } else {
                assert(level[j - scopes.len()] == scope);
            }
        }
        if level.contains(scope) {
            let i = choose|i: int| 0 <= i < level.len() && level[i] == scope;
            if i < index {
                assert(whole[i] == scope);
            } else {
                assert(whole[i + scopes.len()] == scope);
            }
        }
        if scopes.contains(scope) {
            let i = choose|i: int| 0 <= i < scopes.len() && scopes[i] == scope;
            assert(whole[index + i] == scope);
        }
    }
}

/// Sorting by gen keeps the scopes.
pub proof fn lemma_sort_members(scopes: Seq<ScopeView>)
    ensures
        forall|scope: ScopeView|
            #[trigger] sort_by_gen(scopes).contains(scope) <==> scopes.contains(scope),
{
    lemma_sort_by_gen_permutes(scopes);
    sort_by_gen(scopes).to_multiset_ensures();
    scopes.to_multiset_ensures();
    assert forall|scope: ScopeView| #[trigger] sort_by_gen(scopes).contains(scope)
        <==> scopes.contains(scope) by {
        assert(sort_by_gen(scopes).to_multiset().count(scope) == scopes.to_multiset().count(scope));
    }
}

/// The scopes that pass a filter are the scopes of the level that pass the
/// test.
pub proof fn lemma_filter_members(level: Seq<ScopeView>, test: spec_fn(ScopeView) -> bool)
    ensures
        forall|scope: ScopeView|
            #[trigger] level.filter(test).contains(scope) <==> level.contains(scope) && test(scope),
{
    assert forall|scope: ScopeView| #[trigger] level.filter(test).contains(scope)
        <==> level.contains(scope) && test(scope) by {
        if level.filter(test).contains(scope) {
            let i = choose|i: int| 0 <= i < level.filter(test).len() && level.filter(test)[i]
                == scope;
            lemma_filter_member(level, test, i);
        }
        if level.contains(scope) && test(scope) {
            let i = choose|i: int| 0 <= i < level.len() && level[i] == scope;
            lemma_member_filter(level, test, i);
        }
    }
}

/// Where every scope that answers in a level gives the same answer, the
/// level answers what its scopes answer, in whatever order they stand:
/// scopes that are all among those of the level answer, read from the last
/// to the first, what the level answers if one of them answers at all.
pub proof fn lemma_scan_of_part(
    level: Seq<ScopeView>,
    part: Seq<ScopeView>,
    tables: Seq<TableView>,
    key: Seq<u8>,
)
    requires
        agree(level, tables, key),
        forall|i: int| 0 <= i < part.len() ==> level.contains(#[trigger] part[i]),
    ensures
        query_level_0(part, tables, key) is Some ==> query_level_0(part, tables, key)
            == query_level_0(level, tables, key),
        query_level_0(part, tables, key) is None <==> forall|i: int|
            0 <= i < part.len() ==> answer(#[trigger] part[i], tables, key) is None,
{
    lemma_scan_answers(part, tables, key);
    if query_level_0(part, tables, key) is Some {
        let i = choose|i: int|
            0 <= i < part.len() && answer(#[trigger] part[i], tables, key) == query_level_0(
                part,
                tables,
                key,
            );
        assert(level.contains(part[i]));
        let j = choose|j: int| 0 <= j < level.len() && level[j] == part[i];
        lemma_scan_of_agreeing(level, tables, key, j);
    }
}

/// The choice takes whole tables: it names a level before the last, and
/// the scopes that it names in this level and in the next are the scopes
/// of these levels that have their gens, in the order of the levels.
pub open spec fn takes_whole_tables(levels: Seq<Seq<ScopeView>>, plan: MajorView) -> bool {
    &&& plan.level + 1 < LEVEL_COUNT
    &&& plan.upper == with_gens(levels[plan.level as int], gens_of(plan.upper))
    &&& plan.lower == with_gens(levels[plan.level + 1], gens_of(plan.lower))
}

/// The tables with the new gens hold what the compaction writes, one table
/// for each run.
pub open spec fn holds_output(
    levels: Seq<Seq<ScopeView>>,
    tables: Seq<TableView>,
    plan: MajorView,
    new_gens: Seq<i64>,
    limit: usize,
) -> bool {
    let output = major_output(levels, tables, plan, limit);
    &&& new_gens.len() == output.len()
    &&& forall|i: int|
        0 <= i < new_gens.len() ==> (table_of(tables, #[trigger] new_gens[i]) matches Some(table)
            && table.entries == output[i])
}

/// The chosen tables hide no table that stays: no table that stays and is
/// older than a chosen table answers for a key for which the chosen table
/// answers. Older than a table of the level of the choice are the tables
/// before it in that level, and the tables of the next level.
pub open spec fn chosen_alone(
    levels: Seq<Seq<ScopeView>>,
    tables: Seq<TableView>,
    plan: MajorView,
    key: Seq<u8>,
) -> bool {
    let above = levels[plan.level as int];
    let below = levels[plan.level + 1];
    &&& hides_none(above, gens_of(plan.upper), tables, key)
    &&& forall|i: int, j: int|
        0 <= i < below.len() && 0 <= j < plan.upper.len() && !gens_of(plan.lower).contains(
            below[i].gen,
        ) ==> !(answer(#[trigger] below[i], tables, key) is Some && answer(
            #[trigger] plan.upper[j],
            tables,
            key,
        ) is Some)
}

/// What the chosen tables answer together is what their merge finds: the
/// tables of the level first, then those of the next level.
pub proof fn lemma_merged_answer(
    levels: Seq<Seq<ScopeView>>,
    tables: Seq<TableView>,
    plan: MajorView,
    key: Seq<u8>,
)
    requires
        level_fits(plan.upper, tables),
        level_fits(plan.lower, tables),
    ensures
        is_run(merged(major_inputs(plan, tables))),
        found_value(entry_at(merged(major_inputs(plan, tables)), key)) == or_else(
            query_level_0(plan.upper, tables, key),
            query_level_0(plan.lower, tables, key),
        ),
{
    let above = runs_of(plan.upper, tables);
    let below = runs_of(plan.lower, tables);
    let inputs = major_inputs(plan, tables);
    assert forall|i: int| 0 <= i < inputs.len() implies is_run(#[trigger] inputs[i]) by {
        if i < below.len() {
            assert(fits(plan.lower[i], tables));
            assert(inputs[i] == run_of(plan.lower[i], tables));
        } else {
            assert(fits(plan.upper[i - below.len()], tables));
            assert(inputs[i] == run_of(plan.upper[i - below.len()], tables));
        }
    }
    lemma_merged_finds_latest(inputs, key);
    lemma_latest_concat(below, above, key);
    lemma_scan_is_latest(plan.upper, tables, key);
    lemma_scan_is_latest(plan.lower, tables, key);
}

/// What the new tables answer is what the merge finds, unless that is a
/// removal which hides nothing below the next level.
pub proof fn lemma_new_tables_answer(
    levels: Seq<Seq<ScopeView>>,
    tables: Seq<TableView>,
    plan: MajorView,
    new_gens: Seq<i64>,
    limit: usize,
    key: Seq<u8>,
)
    requires
        level_fits(plan.upper, tables),
        level_fits(plan.lower, tables),
        crate::table::tables_wf(tables),
        holds_output(levels, tables, plan, new_gens, limit),
        scopes_of(new_gens, tables) is Some,
    ensures
        level_fits(scopes_of(new_gens, tables).unwrap(), tables),
        query_level_0(scopes_of(new_gens, tables).unwrap(), tables, key) == match entry_at(
            merged(major_inputs(plan, tables)),
            key,
        ) {
            Some(entry) => if is_spent(entry, levels, tables, plan.level + 2) {
                None
            } else {
                Some(entry.cmd.value())
            },
            None => None,
        },
{
    let new_scopes = scopes_of(new_gens, tables).unwrap();
    let whole = merged(major_inputs(plan, tables));
    let live = whole.filter(is_kept(levels, tables, plan.level + 2));
    let output = major_output(levels, tables, plan, limit);
    lemma_merged_answer(levels, tables, plan, key);
    lemma_run_filter(whole, is_kept(levels, tables, plan.level + 2), key);
    lemma_cut_keeps_all(live, limit);
    lemma_chunks_find(output, key);
    lemma_scopes_of(new_gens, tables);
    assert forall|i: int| 0 <= i < new_scopes.len() implies fits(
        #[trigger] new_scopes[i],
        tables,
    ) by {
        let table = table_of(tables, new_gens[i]).unwrap();
        lemma_table_of_gen(tables, new_gens[i]);
        assert(new_scopes[i] == table.scope());
    }
    assert(runs_of(new_scopes, tables) =~= output) by {
        assert forall|i: int| 0 <= i < new_scopes.len() implies run_of(new_scopes[i], tables)
            == output[i] by {
            lemma_table_of_gen(tables, new_gens[i]);
        }
    }
    lemma_scan_is_latest(new_scopes, tables, key);
}

/// The table that is found under a gen has this gen, and is well formed
/// where the tables are.
pub proof fn lemma_table_of_gen(tables: Seq<TableView>, gen: i64)
    requires
        table_of(tables, gen) is Some,
        crate::table::tables_wf(tables),
    ensures
        table_of(tables, gen).unwrap().gen == gen,
        table_of(tables, gen).unwrap().wf(),
{
}

/// Levels that are the same from a depth on answer the same from there on.
pub proof fn lemma_scan_deeper_same(
    levels: Seq<Seq<ScopeView>>,
    other: Seq<Seq<ScopeView>>,
    tables: Seq<TableView>,
    key: Seq<u8>,
    depth: int,
)
    requires
        0 <= depth <= LEVEL_COUNT,
        forall|d: int| depth <= d < LEVEL_COUNT ==> #[trigger] other[d] == levels[d],
    ensures
        scan_deeper(other, tables, key, depth) == scan_deeper(levels, tables, key, depth),
    decreases LEVEL_COUNT - depth,
{
    if depth < LEVEL_COUNT {
        lemma_scan_deeper_same(levels, other, tables, key, depth + 1);
        assert(other[depth] == levels[depth]);
    }
}

/// Levels that are the same down to a depth, and show a reader the same
/// from that depth on, show a reader the same from any depth above.
pub proof fn lemma_scan_chain(
    levels: Seq<Seq<ScopeView>>,
    other: Seq<Seq<ScopeView>>,
    tables: Seq<TableView>,
    key: Seq<u8>,
    depth: int,
    same_to: int,
)
    requires
        0 <= depth <= same_to <= LEVEL_COUNT,
        forall|d: int| 0 <= d < same_to ==> #[trigger] other[d] == levels[d],
        shown(scan_deeper(other, tables, key, same_to)) == shown(
            scan_deeper(levels, tables, key, same_to),
        ),
    ensures
        shown(scan_deeper(other, tables, key, depth)) == shown(
            scan_deeper(levels, tables, key, depth),
        ),
    decreases same_to - depth,
{
    if depth < same_to {
        lemma_scan_chain(levels, other, tables, key, depth + 1, same_to);
        assert(other[depth] == levels[depth]);
    }
}

/// After a major compaction every scope is still that of its table.
pub proof fn lemma_levels_fit_after(
    version: VersionView,
    tables: Seq<TableView>,
    plan: MajorView,
    new_gens: Seq<i64>,
)
    requires
        levels_ordered(version.levels),
        levels_fit(version.levels, tables),
        crate::table::tables_wf(tables),
        major_edits(plan, new_gens, tables) is Some,
        successor(version, major_edits(plan, new_gens, tables).unwrap()) is Some,
    ensures
        levels_fit(
            successor(version, major_edits(plan, new_gens, tables).unwrap()).unwrap().levels,
            tables,
        ),
{
    let after = successor(version, major_edits(plan, new_gens, tables).unwrap()).unwrap();
    let k = plan.level as int;
    let new_scopes = scopes_of(new_gens, tables).unwrap();
    lemma_major_levels(version, plan, new_gens, tables);
    lemma_scopes_of(new_gens, tables);
    let rest = without_gens(version.levels[k + 1], gens_of(plan.lower));
    assert(level_fits(version.levels[k], tables));
    assert(level_fits(version.levels[k + 1], tables));
    lemma_filter_members(version.levels[k], gen_not_in(gens_of(plan.upper)));
    lemma_filter_members(version.levels[k + 1], gen_not_in(gens_of(plan.lower)));
    lemma_sort_members(new_scopes);
    lemma_sort_by_gen_permutes(new_scopes);
    assert(plan.index <= rest.len());
    lemma_insert_all_members(rest, plan.index as int, sort_by_gen(new_scopes));
    assert forall|depth: int| 0 <= depth < after.levels.len() implies level_fits(
        #[trigger] after.levels[depth],
        tables,
    ) by {
        let level = after.levels[depth];
        assert forall|i: int| 0 <= i < level.len() implies fits(#[trigger] level[i], tables) by {
            assert(level.contains(level[i]));
            if depth == k {
                let above = version.levels[k];
                assert(above.contains(level[i]));
                let j = choose|j: int| 0 <= j < above.len() && above[j] == level[i];
                assert(fits(above[j], tables));
            } else if depth == k + 1 {
                if rest.contains(level[i]) {
                    let below = version.levels[k + 1];
                    assert(below.contains(level[i]));
                    let j = choose|j: int| 0 <= j < below.len() && below[j] == level[i];
                    assert(fits(below[j], tables));
                } else {
                    assert(new_scopes.contains(level[i]));
                    let j = choose|j: int| 0 <= j < new_scopes.len() && new_scopes[j] == level[i];
                    lemma_table_of_gen(tables, new_gens[j]);
                }
            } else {
                assert(level == version.levels[depth]);
                assert(level_fits(version.levels[depth], tables));
            }
        }
    }
}

/// After a major compaction the next level answers what the new tables
/// answer, or else what the tables answer that stayed in it.
pub proof fn lemma_after_next_level(
    version: VersionView,
    tables: Seq<TableView>,
    plan: MajorView,
    new_gens: Seq<i64>,
    key: Seq<u8>,
)
    requires
        levels_ordered(version.levels),
        major_edits(plan, new_gens, tables) is Some,
        successor(version, major_edits(plan, new_gens, tables).unwrap()) is Some,
    ensures
        ({
            let after = successor(version, major_edits(plan, new_gens, tables).unwrap()).unwrap();
            query_level_0(after.levels[plan.level + 1], tables, key) == or_else(
                query_level_0(scopes_of(new_gens, tables).unwrap(), tables, key),
                query_level_0(
                    without_gens(version.levels[plan.level + 1], gens_of(plan.lower)),
                    tables,
                    key,
                ),
            )
        }),
{
    let after = successor(version, major_edits(plan, new_gens, tables).unwrap()).unwrap();
    let k = plan.level as int;
    let new_scopes = scopes_of(new_gens, tables).unwrap();
    let rest = without_gens(version.levels[k + 1], gens_of(plan.lower));
    let level = after.levels[k + 1];
    lemma_major_levels(version, plan, new_gens, tables);
    lemma_sort_members(new_scopes);
    lemma_insert_all_members(rest, plan.index as int, sort_by_gen(new_scopes));
    assert(level_ordered(level));
    lemma_ordered_level_agrees(level, tables, key);
    assert forall|i: int| 0 <= i < new_scopes.len() implies level.contains(
        #[trigger] new_scopes[i],
    ) by {
        assert(new_scopes.contains(new_scopes[i]));
    }
    assert forall|i: int| 0 <= i < rest.len() implies level.contains(#[trigger] rest[i]) by {
        assert(rest.contains(rest[i]));
    }
    lemma_scan_of_part(level, new_scopes, tables, key);
    lemma_scan_of_part(level, rest, tables, key);
    lemma_scan_answers(level, tables, key);
    if query_level_0(level, tables, key) is Some {
        let i = choose|i: int|
            0 <= i < level.len() && answer(#[trigger] level[i], tables, key) == query_level_0(
                level,
                tables,
                key,
            );
        assert(level.contains(level[i]));
        if rest.contains(level[i]) {
            let j = choose|j: int| 0 <= j < rest.len() && rest[j] == level[i];
            assert(answer(rest[j], tables, key) is Some);
        } else {
            assert(new_scopes.contains(level[i]));
            let j = choose|j: int| 0 <= j < new_scopes.len() && new_scopes[j] == level[i];
            assert(answer(new_scopes[j], tables, key) is Some);
        }
    }
}

/// The scopes that a choice names are those of their tables, where those
/// of the levels are.
pub proof fn lemma_choice_fits(levels: Seq<Seq<ScopeView>>, tables: Seq<TableView>, plan: MajorView)
    requires
        levels.len() == LEVEL_COUNT,
        levels_fit(levels, tables),
        takes_whole_tables(levels, plan),
    ensures
        level_fits(plan.upper, tables),
        level_fits(plan.lower, tables),
{
    let above = levels[plan.level as int];
    let below = levels[plan.level + 1];
    assert(level_fits(above, tables));
    assert(level_fits(below, tables));
    assert forall|i: int| 0 <= i < plan.upper.len() implies fits(#[trigger] plan.upper[i], tables) by {
        lemma_filter_member(above, gen_in(gens_of(plan.upper)), i);
        let j = choose|j: int| 0 <= j < above.len() && above[j] == plan.upper[i];
        assert(fits(above[j], tables));
    }
    assert forall|i: int| 0 <= i < plan.lower.len() implies fits(#[trigger] plan.lower[i], tables) by {
        lemma_filter_member(below, gen_in(gens_of(plan.lower)), i);
        let j = choose|j: int| 0 <= j < below.len() && below[j] == plan.lower[i];
        assert(fits(below[j], tables));
    }
}

/// Where the chosen tables hide no table that stays, the next level is in
/// order, and one of the chosen tables answers for a key, the tables that
/// stay in the next level answer nothing for it.
pub proof fn lemma_rest_is_silent(
    levels: Seq<Seq<ScopeView>>,
    tables: Seq<TableView>,
    plan: MajorView,
    key: Seq<u8>,
)
    requires
        takes_whole_tables(levels, plan),
        chosen_alone(levels, tables, plan, key),
        level_ordered(levels[plan.level + 1]),
        query_level_0(plan.upper, tables, key) is Some || query_level_0(plan.lower, tables, key)
            is Some,
    ensures
        query_level_0(without_gens(levels[plan.level + 1], gens_of(plan.lower)), tables, key)
            is None,
{
    let below = levels[plan.level + 1];
    let rest = without_gens(below, gens_of(plan.lower));
    lemma_ordered_level_agrees(below, tables, key);
    lemma_scan_answers(rest, tables, key);
    lemma_scan_answers(plan.upper, tables, key);
    lemma_scan_answers(plan.lower, tables, key);
    assert forall|i: int| 0 <= i < rest.len() implies answer(#[trigger] rest[i], tables, key)
        is None by {
        lemma_filter_member(below, gen_not_in(gens_of(plan.lower)), i);
        let at = choose|at: int| 0 <= at < below.len() && below[at] == rest[i];
        assert(!gens_of(plan.lower).contains(below[at].gen));
        if answer(rest[i], tables, key) is Some {
            if query_level_0(plan.upper, tables, key) is Some {
                let j = choose|j: int|
                    0 <= j < plan.upper.len() && answer(#[trigger] plan.upper[j], tables, key)
                        == query_level_0(plan.upper, tables, key);
                assert(answer(below[at], tables, key) is Some && answer(
                    plan.upper[j],
                    tables,
                    key,
                ) is Some);
            } else {
                let j = choose|j: int|
                    0 <= j < plan.lower.len() && answer(#[trigger] plan.lower[j], tables, key)
                        == query_level_0(plan.lower, tables, key);
                lemma_filter_member(below, gen_in(gens_of(plan.lower)), j);
                let from = choose|from: int| 0 <= from < below.len() && below[from]
                    == plan.lower[j];
                assert(gens_of(plan.lower).contains(below[from].gen));
                assert(answer(below[from], tables, key) is Some && answer(
                    below[at],
                    tables,
                    key,
                ) is Some);
            }
        }
    }
}

/// A major compaction changes nothing for a reader, as long as it takes
/// whole tables and the chosen tables hide no older table that stays:
/// whatever key is asked for, the store gives after the new tables were
/// installed what it gave before. Newer tables that stay in the level of
/// the choice may hold the keys of the chosen tables.
pub proof fn lemma_major_keeps_get(
    store: StoreView,
    plan: MajorView,
    new_gens: Seq<i64>,
    key: Seq<u8>,
)
    requires
        store.wf(),
        levels_fit(store.version.levels, store.tables),
        takes_whole_tables(store.version.levels, plan),
        holds_output(
            store.version.levels,
            store.tables,
            plan,
            new_gens,
            store.options.sst_file_size,
        ),
        chosen_alone(store.version.levels, store.tables, plan, key),
        major_edits(plan, new_gens, store.tables) is Some,
        successor(store.version, major_edits(plan, new_gens, store.tables).unwrap()) is Some,
    ensures
        ({
            let version = successor(
                store.version,
                major_edits(plan, new_gens, store.tables).unwrap(),
            ).unwrap();
            (StoreView { version, ..store }).get(key) == store.get(key)
        }),
{
    let levels = store.version.levels;
    let tables = store.tables;
    let after = successor(store.version, major_edits(plan, new_gens, tables).unwrap()).unwrap();
    lemma_major_levels(store.version, plan, new_gens, tables);
    lemma_levels_fit_after(store.version, tables, plan, new_gens);
    lemma_query_is_scan(levels, tables, key);
    lemma_query_is_scan(after.levels, tables, key);
    lemma_major_keeps_scan(store, plan, new_gens, key);
    lemma_scan_chain(levels, after.levels, tables, key, 0, plan.level as int);
}

/// From the level of the choice on, the levels show a reader after a major
/// compaction what they showed before.
proof fn lemma_major_keeps_scan(store: StoreView, plan: MajorView, new_gens: Seq<i64>, key: Seq<u8>)
    requires
        store.wf(),
        levels_fit(store.version.levels, store.tables),
        takes_whole_tables(store.version.levels, plan),
        holds_output(
            store.version.levels,
            store.tables,
            plan,
            new_gens,
            store.options.sst_file_size,
        ),
        chosen_alone(store.version.levels, store.tables, plan, key),
        major_edits(plan, new_gens, store.tables) is Some,
        successor(store.version, major_edits(plan, new_gens, store.tables).unwrap()) is Some,
    ensures
        ({
            let after = successor(
                store.version,
                major_edits(plan, new_gens, store.tables).unwrap(),
            ).unwrap();
            shown(scan_deeper(after.levels, store.tables, key, plan.level as int)) == shown(
                scan_deeper(store.version.levels, store.tables, key, plan.level as int),
            )
        }),
{
    let levels = store.version.levels;
    let tables = store.tables;
    let k = plan.level as int;
    let after = successor(store.version, major_edits(plan, new_gens, tables).unwrap()).unwrap();
    let above = levels[k];
    let below = levels[k + 1];
    let kept = without_gens(above, gens_of(plan.upper));
    let rest = without_gens(below, gens_of(plan.lower));
    let new_scopes = scopes_of(new_gens, tables).unwrap();
    lemma_major_levels(store.version, plan, new_gens, tables);
    lemma_choice_fits(levels, tables, plan);
    // before: each of the two levels answers what stays, or else what goes
    lemma_scan_split(above, gens_of(plan.upper), tables, key);
    assert(level_ordered(below));
    lemma_ordered_level_agrees(below, tables, key);
    assert(apart(below, gens_of(plan.lower), tables, key));
    lemma_apart_hides_none(below, gens_of(plan.lower), tables, key);
    lemma_scan_split(below, gens_of(plan.lower), tables, key);
    // after: the next level answers what is new, or else what stayed
    lemma_after_next_level(store.version, tables, plan, new_gens, key);
    lemma_new_tables_answer(
        levels,
        tables,
        plan,
        new_gens,
        store.options.sst_file_size,
        key,
    );
    lemma_merged_answer(levels, tables, plan, key);
    // below the two levels nothing changed
    lemma_scan_deeper_same(levels, after.levels, tables, key, k + 2);
    lemma_query_deeper_is_scan(levels, tables, key, k + 2);
    let goes = or_else(
        query_level_0(plan.upper, tables, key),
        query_level_0(plan.lower, tables, key),
    );
    if goes is Some {
        lemma_rest_is_silent(levels, tables, plan, key);
    }
    let deeper = scan_deeper(levels, tables, key, k + 2);
    let before_below = or_else(query_level_0(below, tables, key), deeper);
    let after_below = or_else(query_level_0(after.levels[k + 1], tables, key), deeper);
    assert(scan_deeper(levels, tables, key, k + 1) == before_below);
    assert(scan_deeper(after.levels, tables, key, k + 1) == after_below);
    assert(scan_deeper(levels, tables, key, k) == or_else(
        query_level_0(above, tables, key),
        before_below,
    ));
    assert(scan_deeper(after.levels, tables, key, k) == or_else(
        query_level_0(kept, tables, key),
        after_below,
    ));
}

/// Two tests that agree on every entry of a run keep the same entries.
proof fn lemma_filter_same(
    entries: Seq<EntryView>,
    first: spec_fn(EntryView) -> bool,
    second: spec_fn(EntryView) -> bool,
)
    requires
        forall|i: int| 0 <= i < entries.len() ==> first(#[trigger] entries[i]) == second(entries[i]),
    ensures
        entries.filter(first) == entries.filter(second),
    decreases entries.len(),
{
    reveal(Seq::filter);
    if entries.len() > 0 {
        let front = entries.drop_last();
        assert forall|i: int| 0 <= i < front.len() implies first(#[trigger] front[i]) == second(
            front[i],
        ) by {
            assert(front[i] == entries[i]);
        }
        lemma_filter_same(front, first, second);
        assert(first(entries[entries.len() - 1]) == second(entries[entries.len() - 1]));
    }
}

/// What a major compaction writes does not depend on tables that neither
/// the levels nor the choice name: with other tables loaded, or fewer, the
/// merge gives the same.
pub proof fn lemma_output_ignores_other_tables(
    levels: Seq<Seq<ScopeView>>,
    tables: Seq<TableView>,
    more: Seq<TableView>,
    plan: MajorView,
    limit: usize,
)
    requires
        levels_ordered(levels),
        plan.level + 2 <= LEVEL_COUNT,
        forall|d: int, i: int|
            0 <= d < LEVEL_COUNT && 0 <= i < levels[d].len() ==> table_of(
                more,
                (#[trigger] levels[d][i]).gen,
            ) == table_of(tables, levels[d][i].gen),
        forall|i: int|
            0 <= i < plan.upper.len() ==> table_of(more, (#[trigger] plan.upper[i]).gen)
                == table_of(tables, plan.upper[i].gen),
        forall|i: int|
            0 <= i < plan.lower.len() ==> table_of(more, (#[trigger] plan.lower[i]).gen)
                == table_of(tables, plan.lower[i].gen),
    ensures
        major_output(levels, more, plan, limit) == major_output(levels, tables, plan, limit),
{
    let below = plan.level + 2;
    assert(runs_of(plan.upper, more) =~= runs_of(plan.upper, tables)) by {
        assert forall|i: int| 0 <= i < plan.upper.len() implies run_of(plan.upper[i], more)
            == run_of(plan.upper[i], tables) by {}
    }
    assert(runs_of(plan.lower, more) =~= runs_of(plan.lower, tables)) by {
        assert forall|i: int| 0 <= i < plan.lower.len() implies run_of(plan.lower[i], more)
            == run_of(plan.lower[i], tables) by {}
    }
    let whole = merged(major_inputs(plan, tables));
    assert(major_inputs(plan, more) == major_inputs(plan, tables));
    assert forall|i: int| 0 <= i < whole.len() implies is_kept(levels, more, below)(
        #[trigger] whole[i],
    ) == is_kept(levels, tables, below)(whole[i]) by {
        crate::store_model::lemma_deeper_same_tables(
            levels,
            levels,
            tables,
            more,
            whole[i].key(),
            below,
        );
    }
    lemma_filter_same(whole, is_kept(levels, more, below), is_kept(levels, tables, below));
}

/// No two scopes of the level have the same gen.
pub open spec fn gens_once(level: Seq<ScopeView>) -> bool {
    forall|i: int, j: int|
        0 <= i < j < level.len() ==> (#[trigger] level[i]).gen != (#[trigger] level[j]).gen
}

/// Two tests that agree on every scope of a level keep the same scopes.
proof fn lemma_scopes_filter_same(
    level: Seq<ScopeView>,
    first: spec_fn(ScopeView) -> bool,
    second: spec_fn(ScopeView) -> bool,
)
    requires
        forall|i: int| 0 <= i < level.len() ==> first(#[trigger] level[i]) == second(level[i]),
    ensures
        level.filter(first) == level.filter(second),
    decreases level.len(),
{
    reveal(Seq::filter);
    if level.len() > 0 {
        let front = level.drop_last();
        assert forall|i: int| 0 <= i < front.len() implies first(#[trigger] front[i]) == second(
            front[i],
        ) by {
            assert(front[i] == level[i]);
        }
        lemma_scopes_filter_same(front, first, second);
        assert(first(level[level.len() - 1]) == second(level[level.len() - 1]));
    }
}

/// In a level that names no gen twice, the scopes that pass a test are the
/// scopes with the gens of those that pass it.
pub proof fn lemma_filter_by_gens(level: Seq<ScopeView>, test: spec_fn(ScopeView) -> bool)
    requires
        gens_once(level),
    ensures
        with_gens(level, gens_of(level.filter(test))) == level.filter(test),
{
    let passed = level.filter(test);
    let gens = gens_of(passed);
    lemma_filter_members(level, test);
    assert forall|i: int| 0 <= i < level.len() implies gen_in(gens)(#[trigger] level[i]) == test(
        level[i],
    ) by {
        assert(level.contains(level[i]));
        if test(level[i]) {
            assert(passed.contains(level[i]));
            let at = choose|at: int| 0 <= at < passed.len() && passed[at] == level[i];
            assert(gens[at] == level[i].gen);
        }
        if gens.contains(level[i].gen) {
            let at = choose|at: int| 0 <= at < gens.len() && gens[at] == level[i].gen;
            assert(passed.contains(passed[at]));
            assert(level.contains(passed[at]));
            let from = choose|from: int| 0 <= from < level.len() && level[from] == passed[at];
            if from < i {
                assert(level[from].gen != level[i].gen);
            } else if i < from {
                assert(level[i].gen != level[from].gen);
            }
        }
    }
    lemma_scopes_filter_same(level, gen_in(gens), test);
}

/// The test that a scope passes when it is among the first `first` of a
/// level that names no gen twice.
pub open spec fn among_first(level: Seq<ScopeView>, first: int) -> spec_fn(ScopeView) -> bool {
    |scope: ScopeView| exists|i: int| 0 <= i < first && i < level.len() && level[i] == scope
}

/// In a level that names no gen twice, the first scopes are those that
/// pass the test of being among them.
proof fn lemma_first_as_filter(level: Seq<ScopeView>, first: int, upto: int)
    requires
        gens_once(level),
        0 <= first <= level.len(),
        0 <= upto <= level.len(),
    ensures
        level.take(upto).filter(among_first(level, first)) == level.take(
            if upto <= first {
                upto
            } else {
                first
            },
        ),
    decreases upto,
{
    reveal(Seq::filter);
    let test = among_first(level, first);
    if upto == 0 {
        assert(level.take(0) =~= Seq::<ScopeView>::empty());
    } else {
        lemma_first_as_filter(level, first, upto - 1);
        let part = level.take(upto);
        assert(part.drop_last() =~= level.take(upto - 1));
        assert(part.last() == level[upto - 1]);
        if upto <= first {
            assert(test(level[upto - 1]));
            assert(level.take(upto - 1).push(level[upto - 1]) =~= level.take(upto));
        } else {
            let last = level[upto - 1];
            if test(last) {
                let i = choose|i: int| 0 <= i < first && i < level.len() && level[i] == last;
                assert(level[i].gen != level[upto - 1].gen);
            }
        }
    }
}

/// Two scopes that hold the same key overlap.
pub proof fn lemma_holders_meet(first: ScopeView, second: ScopeView, key: Seq<u8>)
    requires
        first.holds(key),
        second.holds(key),
    ensures
        first.meets(second),
{
    lemma_key_le_transitive(first.start, key, second.end);
    lemma_key_le_transitive(second.start, key, first.end);
}

/// No scope of the level with a gen among `gens` overlaps a scope with
/// another gen that stands before it in the level.
pub open spec fn scopes_hide_none(level: Seq<ScopeView>, gens: Seq<i64>) -> bool {
    forall|a: int, b: int|
        0 <= b < a < level.len() && gens.contains(level[a].gen) && !gens.contains(level[b].gen)
            ==> !(#[trigger] level[a]).meets(#[trigger] level[b])
}

/// No scope of the level with a gen outside `gens` overlaps one of the
/// scopes `taken`.
pub open spec fn scopes_clear_of(level: Seq<ScopeView>, gens: Seq<i64>, taken: Seq<ScopeView>)
    -> bool {
    forall|a: int, b: int|
        0 <= a < level.len() && 0 <= b < taken.len() && !gens.contains(level[a].gen) ==> !(
        #[trigger] level[a]).meets(#[trigger] taken[b])
}

/// The scopes that a choice takes overlap no scope of an older table that
/// stays: none that stands before them in the level of the choice, and
/// none of the next level where it is a scope taken from the level of the
/// choice.
pub open spec fn scopes_alone(levels: Seq<Seq<ScopeView>>, plan: MajorView) -> bool {
    &&& plan.level + 1 < LEVEL_COUNT
    &&& scopes_hide_none(levels[plan.level as int], gens_of(plan.upper))
    &&& scopes_clear_of(levels[plan.level + 1], gens_of(plan.lower), plan.upper)
}

/// Where the scopes that a choice takes overlap no scope of an older table
/// that stays, the chosen tables hide no table that stays, whatever the
/// tables hold.
pub proof fn lemma_scopes_alone_tables_alone(
    levels: Seq<Seq<ScopeView>>,
    tables: Seq<TableView>,
    plan: MajorView,
    key: Seq<u8>,
)
    requires
        scopes_alone(levels, plan),
    ensures
        chosen_alone(levels, tables, plan, key),
{
    let level = levels[plan.level as int];
    let next = levels[plan.level + 1];
    assert forall|a: int, b: int|
        0 <= b < a < level.len() && gens_of(plan.upper).contains(level[a].gen) && !gens_of(
            plan.upper,
        ).contains(level[b].gen) implies !(answer(#[trigger] level[a], tables, key) is Some
        && answer(#[trigger] level[b], tables, key) is Some) by {
        if level[a].holds(key) && level[b].holds(key) {
            lemma_holders_meet(level[a], level[b], key);
        }
    }
    assert forall|a: int, b: int|
        0 <= a < next.len() && 0 <= b < plan.upper.len() && !gens_of(plan.lower).contains(
            next[a].gen,
        ) implies !(answer(#[trigger] next[a], tables, key) is Some && answer(
        #[trigger] plan.upper[b],
        tables,
        key,
    ) is Some) by {
        if next[a].holds(key) && plan.upper[b].holds(key) {
            lemma_holders_meet(next[a], plan.upper[b], key);
        }
    }
}

/// The scopes of a level that names no gen twice which pass a test name no
/// gen twice.
pub proof fn lemma_filter_keeps_gens_once(level: Seq<ScopeView>, test: spec_fn(ScopeView) -> bool)
    requires
        gens_once(level),
    ensures
        gens_once(level.filter(test)),
    decreases level.len(),
{
    reveal(Seq::filter);
    if level.len() > 0 {
        let front = level.drop_last();
        let last = level.last();
        assert forall|i: int, j: int| 0 <= i < j < front.len() implies (#[trigger] front[i]).gen != (
        #[trigger] front[j]).gen by {
            assert(level[i].gen != level[j].gen);
        }
        lemma_filter_keeps_gens_once(front, test);
        let passed = front.filter(test);
        if test(last) {
            let all = passed.push(last);
            assert(level.filter(test) == all);
            assert forall|i: int, j: int| 0 <= i < j < all.len() implies (#[trigger] all[i]).gen != (
            #[trigger] all[j]).gen by {
                if j < passed.len() {
                    assert(passed[i].gen != passed[j].gen);
                } else {
                    lemma_filter_member(front, test, i);
                    let from = choose|from: int| 0 <= from < front.len() && front[from] == passed[i];
                    assert(level[from].gen != level[level.len() - 1].gen);
                }
            }
        }
    }
}

/// An ordered level whose scopes are those of their tables names no gen
/// twice.
pub proof fn lemma_ordered_level_gens_once(level: Seq<ScopeView>, tables: Seq<TableView>)
    requires
        level_ordered(level),
        level_fits(level, tables),
    ensures
        gens_once(level),
{
    assert forall|i: int, j: int| 0 <= i < j < level.len() implies (#[trigger] level[i]).gen != (
    #[trigger] level[j]).gen by {
        if level[i].gen == level[j].gen {
            assert(fits(level[i], tables));
            assert(fits(level[j], tables));
            assert(level[i] == level[j]);
            assert(level[i].is_range());
            assert(key_lt(level[i].end, level[j].start));
            lemma_key_le_iff_not_gt(level[i].start, level[i].end);
        }
    }
}

/// The test that a scope passes when it is among the first `first` of a
/// level or overlaps the span.
pub open spec fn first_or_meeting(level: Seq<ScopeView>, first: int, span: ScopeView) -> spec_fn(
    ScopeView,
) -> bool {
    |scope: ScopeView| among_first(level, first)(scope) || scope.meets(span)
}

/// In a level that names no gen twice, the scopes that are among the first
/// ones or overlap a span are those that pass the test of being so.
proof fn lemma_widened_as_filter(level: Seq<ScopeView>, first: int, span: ScopeView, upto: int)
    requires
        gens_once(level),
        0 <= first <= level.len(),
        0 <= upto <= level.len(),
    ensures
        widened(level.take(upto), first, span) == level.take(upto).filter(
            first_or_meeting(level, first, span),
        ),
    decreases upto,
{
    reveal(Seq::filter);
    let test = first_or_meeting(level, first, span);
    if upto == 0 {
        assert(level.take(0) =~= Seq::<ScopeView>::empty());
    } else {
        lemma_widened_as_filter(level, first, span, upto - 1);
        let part = level.take(upto);
        let last = level[upto - 1];
        assert(part.drop_last() =~= level.take(upto - 1));
        assert(part.last() == last);
        if among_first(level, first)(last) {
            let i = choose|i: int| 0 <= i < first && i < level.len() && level[i] == last;
            if i < upto - 1 {
                assert(level[i].gen != level[upto - 1].gen);
            } else if upto - 1 < i {
                assert(level[upto - 1].gen != level[i].gen);
            }
            assert(upto - 1 < first);
        }
        if upto - 1 < first {
            assert(level[upto - 1] == last);
            assert(among_first(level, first)(last));
        }
        assert(test(last) == (part.len() - 1 < first || last.meets(span)));
    }
}

/// Where all scopes of a level count as the first ones, all of them are
/// taken.
pub proof fn lemma_widened_whole(level: Seq<ScopeView>, first: int, span: ScopeView)
    requires
        level.len() <= first,
    ensures
        widened(level, first, span) == level,
    decreases level.len(),
{
    if level.len() > 0 {
        lemma_widened_whole(level.drop_last(), first, span);
        assert(level.drop_last().push(level.last()) =~= level);
    }
}

/// The choice for a major compaction that picks every table of its level
/// takes whole tables and hides no table that stays, where the two levels
/// name each gen once.
pub proof fn lemma_whole_level_choice_is_sound(
    levels: Seq<Seq<ScopeView>>,
    tables: Seq<TableView>,
    level: usize,
    key: Seq<u8>,
)
    requires
        levels.len() == LEVEL_COUNT,
        major_plan(levels, usize::MAX, level) is Some,
        levels[level as int].len() <= usize::MAX,
        gens_once(levels[level as int]),
        gens_once(levels[level + 1]),
    ensures
        major_plan(levels, usize::MAX, level).unwrap().upper == levels[level as int],
        takes_whole_tables(levels, major_plan(levels, usize::MAX, level).unwrap()),
        chosen_alone(levels, tables, major_plan(levels, usize::MAX, level).unwrap(), key),
{
    let plan = major_plan(levels, usize::MAX, level).unwrap();
    let above = levels[level as int];
    assert(above.take(above.len() as int) =~= above);
    if level == 0 && plan.lower.len() > 0 {
        lemma_widened_whole(above, above.len() as int, fusion_of(plan.lower));
    }
    assert(plan.upper == above);
    lemma_front_choice_is_sound(levels, tables, usize::MAX, level, key);
}

/// Every choice for a major compaction takes whole tables, where the two
/// levels name no gen twice.
pub proof fn lemma_planned_choice_takes_whole_tables(
    levels: Seq<Seq<ScopeView>>,
    select: usize,
    level: usize,
)
    requires
        levels.len() == LEVEL_COUNT,
        major_plan(levels, select, level) is Some,
        gens_once(levels[level as int]),
        gens_once(levels[level + 1]),
    ensures
        takes_whole_tables(levels, major_plan(levels, select, level).unwrap()),
{
    let plan = major_plan(levels, select, level).unwrap();
    let above = levels[level as int];
    let below = levels[level + 1];
    let first = if select <= above.len() {
        select as int
    } else {
        above.len() as int
    };
    let picks = above.take(first);
    let target = fusion_of(picks);
    assert(plan.lower == below.filter(meets_target(target)));
    lemma_filter_by_gens(below, meets_target(target));
    assert(above.take(above.len() as int) =~= above);
    if level == 0 && plan.lower.len() > 0 {
        let span = fusion_of(plan.lower);
        assert(plan.upper == widened(above, first, span));
        lemma_widened_as_filter(above, first, span, above.len() as int);
        lemma_filter_by_gens(above, first_or_meeting(above, first, span));
    } else {
        assert(plan.upper == picks);
        lemma_first_as_filter(above, first, above.len() as int);
        lemma_filter_by_gens(above, among_first(above, first));
    }
}

/// A choice for a major compaction that takes the first tables of its
/// level and no further one meets what the law on major compactions asks:
/// where the two levels name each gen once, the choice takes whole tables,
/// and the chosen tables hide no table that stays. Below level 0 every
/// choice is of this kind; at level 0 a choice is, unless tables behind
/// the first ones were taken along.
pub proof fn lemma_front_choice_is_sound(
    levels: Seq<Seq<ScopeView>>,
    tables: Seq<TableView>,
    select: usize,
    level: usize,
    key: Seq<u8>,
)
    requires
        levels.len() == LEVEL_COUNT,
        major_plan(levels, select, level) is Some,
        gens_once(levels[level as int]),
        gens_once(levels[level + 1]),
        major_plan(levels, select, level).unwrap().upper == levels[level as int].take(
            if select <= levels[level as int].len() {
                select as int
            } else {
                levels[level as int].len() as int
            },
        ),
    ensures
        takes_whole_tables(levels, major_plan(levels, select, level).unwrap()),
        chosen_alone(levels, tables, major_plan(levels, select, level).unwrap(), key),
{
    let plan = major_plan(levels, select, level).unwrap();
    let k = level as int;
    let above = levels[k];
    let below = levels[k + 1];
    let first = if select <= above.len() {
        select as int
    } else {
        above.len() as int
    };
    let target = fusion_of(plan.upper);
    let gens = gens_of(plan.upper);
    assert(plan.upper == above.take(first));
    assert(plan.lower == below.filter(meets_target(target)));
    // whole tables
    lemma_first_as_filter(above, first, above.len() as int);
    assert(above.take(above.len() as int) =~= above);
    lemma_filter_by_gens(above, among_first(above, first));
    lemma_filter_by_gens(below, meets_target(target));
    // every table before a chosen one is chosen too
    assert forall|i: int, j: int|
        0 <= j < i < above.len() && gens.contains(above[i].gen) && !gens.contains(
            above[j].gen,
        ) implies !(answer(#[trigger] above[i], tables, key) is Some && answer(
        #[trigger] above[j],
        tables,
        key,
    ) is Some) by {
        let at = choose|at: int| 0 <= at < gens.len() && gens[at] == above[i].gen;
        assert(plan.upper[at] == above[at]);
        assert(above[at].gen == above[i].gen);
        if at < i {
            assert(above[at].gen != above[i].gen);
        } else if i < at {
            assert(above[i].gen != above[at].gen);
        }
        assert(plan.upper[j] == above[j]);
        assert(gens[j] == above[j].gen);
    }
    lemma_filter_members(below, meets_target(target));
    assert forall|i: int, j: int|
        0 <= i < below.len() && 0 <= j < plan.upper.len() && !gens_of(plan.lower).contains(
            below[i].gen,
        ) implies !(answer(#[trigger] below[i], tables, key) is Some && answer(
        #[trigger] plan.upper[j],
        tables,
        key,
    ) is Some) by {
        if below[i].holds(key) && plan.upper[j].holds(key) {
            // what holds a key of a chosen table overlaps the range of the
            // choice, and so was chosen too
            lemma_fusion_covers(plan.upper, j);
            lemma_key_le_transitive(target.start, plan.upper[j].start, key);
            lemma_key_le_transitive(key, plan.upper[j].end, target.end);
            lemma_holders_meet(below[i], target, key);
            assert(below.contains(below[i]));
            assert(plan.lower.contains(below[i]));
            let at = choose|at: int| 0 <= at < plan.lower.len() && plan.lower[at] == below[i];
            assert(gens_of(plan.lower)[at] == below[i].gen);
        }
    }
}

/// Each entry of the tables that a run was cut into is an entry of the
/// run.
proof fn lemma_chunk_entry_in_run(chunks: Seq<Seq<EntryView>>, i: int, j: int)
    requires
        0 <= i < chunks.len(),
        0 <= j < chunks[i].len(),
    ensures
        chunks.flatten_alt().contains(chunks[i][j]),
    decreases chunks.len(),
{
    let front = chunks.drop_last();
    let flat = chunks.flatten_alt();
    assert(flat == front.flatten_alt() + chunks.last());
    if i == chunks.len() - 1 {
        assert(flat[front.flatten_alt().len() + j] == chunks[i][j]);
    } else {
        lemma_chunk_entry_in_run(front, i, j);
        let at = choose|at: int|
            0 <= at < front.flatten_alt().len() && front.flatten_alt()[at] == front[i][j];
        assert(flat[at] == chunks[i][j]);
    }
}

/// What a major compaction writes into the last level holds no removal:
/// nothing lies below that level which a removal could hide, so every
/// removal is left out and its key is gone from the tables.
pub proof fn lemma_last_level_takes_no_removal(
    levels: Seq<Seq<ScopeView>>,
    tables: Seq<TableView>,
    plan: MajorView,
    limit: usize,
    i: int,
    j: int,
)
    requires
        plan.level + 2 == LEVEL_COUNT,
        0 <= i < major_output(levels, tables, plan, limit).len(),
        0 <= j < major_output(levels, tables, plan, limit)[i].len(),
    ensures
        major_output(levels, tables, plan, limit)[i][j].cmd is Put,
{
    let test = is_kept(levels, tables, plan.level + 2);
    let run = merged(major_inputs(plan, tables)).filter(test);
    let output = major_output(levels, tables, plan, limit);
    lemma_cut_keeps_all(run, limit);
    lemma_chunk_entry_in_run(output, i, j);
    let at = choose|at: int| 0 <= at < run.len() && run[at] == output[i][j];
    merged(major_inputs(plan, tables)).lemma_filter_pred(test, at);
    assert(test(run[at]));
    assert(query_deeper(levels, tables, run[at].key(), LEVEL_COUNT as int) is None);
}

/// What a major compaction writes holds each key once: the new tables,
/// one after the other, are a run. However often a key was written, the
/// tables that took part in the compaction hold it once afterwards.
pub proof fn lemma_output_holds_each_key_once(
    levels: Seq<Seq<ScopeView>>,
    tables: Seq<TableView>,
    plan: MajorView,
    limit: usize,
)
    requires
        level_fits(plan.upper, tables),
        level_fits(plan.lower, tables),
    ensures
        is_run(major_output(levels, tables, plan, limit).flatten_alt()),
{
    let whole = merged(major_inputs(plan, tables));
    let test = is_kept(levels, tables, plan.level + 2);
    lemma_merged_answer(levels, tables, plan, Seq::empty());
    lemma_run_filter(whole, test, Seq::empty());
    lemma_cut_keeps_all(whole.filter(test), limit);
}

/// A key that was removed is gone once its removal is merged into the
/// last level: where the newest entry that the chosen tables hold for the
/// key is a removal, no table that the compaction writes holds the key,
/// neither a value nor the removal.
pub proof fn lemma_removed_key_leaves_last_level(
    levels: Seq<Seq<ScopeView>>,
    tables: Seq<TableView>,
    plan: MajorView,
    limit: usize,
    key: Seq<u8>,
)
    requires
        plan.level + 2 == LEVEL_COUNT,
        level_fits(plan.upper, tables),
        level_fits(plan.lower, tables),
        latest_entry(major_inputs(plan, tables), key) matches Some(entry) && entry.cmd is Remove,
    ensures
        entry_at(major_output(levels, tables, plan, limit).flatten_alt(), key) is None,
{
    let inputs = major_inputs(plan, tables);
    let below = runs_of(plan.lower, tables);
    let test = is_kept(levels, tables, plan.level + 2);
    assert forall|i: int| 0 <= i < inputs.len() implies is_run(#[trigger] inputs[i]) by {
        if i < below.len() {
            assert(fits(plan.lower[i], tables));
            assert(inputs[i] == run_of(plan.lower[i], tables));
        } else {
            assert(fits(plan.upper[i - below.len()], tables));
            assert(inputs[i] == run_of(plan.upper[i - below.len()], tables));
        }
    }
    lemma_merged_finds_latest(inputs, key);
    let entry = entry_at(merged(inputs), key).unwrap();
    assert(query_deeper(levels, tables, entry.key(), LEVEL_COUNT as int) is None);
    assert(!test(entry));
    lemma_run_filter(merged(inputs), test, key);
    lemma_cut_keeps_all(merged(inputs).filter(test), limit);
}

} // verus!
