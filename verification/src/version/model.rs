//! What the edits do to the levels of a version, as mathematical functions.

use vstd::prelude::*;
use crate::keys::{key_le, key_lt};
use crate::scope::{lemma_ordered_level_is_disjoint, level_ordered, ScopeView};
use crate::table::{has_table, table_of, TableView};
use crate::version::edit::VersionEditView;
use crate::version::meta::{TableMeta, VersionMeta};

verus! {

/// The number of levels of the store.
pub const LEVEL_COUNT: usize = 7;

/// The level that receives the tables written from memory.
pub const LEVEL_0: usize = 0;

/// A version as a mathematical value: its number, the scopes of each level in
/// their order, and its counters.
pub struct VersionView {
    pub version_num: u64,
    pub levels: Seq<Seq<ScopeView>>,
    pub meta: VersionMeta,
}

/// The test that a scope passes when its gen is not among `gens`.
pub open spec fn gen_not_in(gens: Seq<i64>) -> spec_fn(ScopeView) -> bool {
    |scope: ScopeView| !gens.contains(scope.gen)
}

/// The scopes of `level` whose gen is not among `gens`, in their order.
pub open spec fn without_gens(level: Seq<ScopeView>, gens: Seq<i64>) -> Seq<ScopeView> {
    level.filter(gen_not_in(gens))
}

/// `sorted` with `scope` put behind every scope whose gen is at most its own.
pub open spec fn insert_by_gen(sorted: Seq<ScopeView>, scope: ScopeView) -> Seq<ScopeView>
    decreases sorted.len(),
{
    if sorted.len() == 0 || sorted.last().gen <= scope.gen {
        sorted.push(scope)
    } else {
        insert_by_gen(sorted.drop_last(), scope).push(sorted.last())
    }
}

/// The scopes in ascending order of gen, scopes of one gen in the order in
/// which they were given.
pub open spec fn sort_by_gen(scopes: Seq<ScopeView>) -> Seq<ScopeView>
    decreases scopes.len(),
{
    if scopes.len() == 0 {
        scopes
    } else {
        insert_by_gen(sort_by_gen(scopes.drop_last()), scopes.last())
    }
}

/// `level` with `scopes` put in at place `index`.
pub open spec fn insert_all(level: Seq<ScopeView>, index: int, scopes: Seq<ScopeView>) -> Seq<
    ScopeView,
> {
    level.subrange(0, index) + scopes + level.subrange(index, level.len() as int)
}

/// Whether the seven levels can take the edit: its level exists, and at
/// depth one or more the place of insertion lies within the level.
pub open spec fn edit_fits(levels: Seq<Seq<ScopeView>>, edit: VersionEditView) -> bool {
    match edit {
        VersionEditView::DeleteFile { level, .. } => level < LEVEL_COUNT,
        VersionEditView::NewFile { level, index, .. } => level < LEVEL_COUNT && (level == LEVEL_0
            || index <= levels[level as int].len()),
    }
}

/// What one level holds after the edit, which names it.
pub open spec fn level_after_edit(level: Seq<ScopeView>, edit: VersionEditView) -> Seq<ScopeView> {
    match edit {
        VersionEditView::DeleteFile { gens, .. } => without_gens(level, gens),
        VersionEditView::NewFile { scopes, level: depth, index, .. } => if depth == LEVEL_0 {
            level + sort_by_gen(scopes)
        } else {
            insert_all(level, index as int, sort_by_gen(scopes))
        },
    }
}

/// The counters after the edit, where they stay within their types.
pub open spec fn meta_after_edit(meta: VersionMeta, edit: VersionEditView) -> Option<VersionMeta> {
    match edit {
        VersionEditView::DeleteFile { meta: gone, .. } => meta.minus(gone),
        VersionEditView::NewFile { meta: come, .. } => meta.plus(come),
    }
}

/// Levels and counters after one edit; `None` where the edit does not fit.
pub open spec fn after_edit(version: VersionView, edit: VersionEditView) -> Option<VersionView> {
    if version.levels.len() == LEVEL_COUNT && edit_fits(version.levels, edit) {
        match meta_after_edit(version.meta, edit) {
            Some(meta) => Some(
                VersionView {
                    version_num: version.version_num,
                    levels: version.levels.update(
                        edit.level() as int,
                        level_after_edit(version.levels[edit.level() as int], edit),
                    ),
                    meta,
                },
            ),
            None => None,
        }
    } else {
        None
    }
}

/// Levels and counters after the edits, taken in order; `None` as soon as
/// one of them does not fit.
pub open spec fn after_edits(version: VersionView, edits: Seq<VersionEditView>) -> Option<
    VersionView,
>
    decreases edits.len(),
{
    if edits.len() == 0 {
        Some(version)
    } else {
        match after_edits(version, edits.drop_last()) {
            Some(before) => after_edit(before, edits.last()),
            None => None,
        }
    }
}

/// Applying edits and then further edits is applying them all, one after
/// the other.
pub proof fn lemma_after_edits_concat(
    version: VersionView,
    first: Seq<VersionEditView>,
    second: Seq<VersionEditView>,
)
    ensures
        after_edits(version, first + second) == match after_edits(version, first) {
            Some(between) => after_edits(between, second),
            None => None,
        },
    decreases second.len(),
{
    if second.len() == 0 {
        assert(first + second =~= first);
    } else {
        lemma_after_edits_concat(version, first, second.drop_last());
        assert((first + second).drop_last() =~= first + second.drop_last());
        assert((first + second).last() == second.last());
    }
}

/// The gens that the edits delete, in the order of the edits.
pub open spec fn deleted_gens(edits: Seq<VersionEditView>) -> Seq<i64>
    decreases edits.len(),
{
    if edits.len() == 0 {
        Seq::empty()
    } else {
        match edits.last() {
            VersionEditView::DeleteFile { gens, .. } => deleted_gens(edits.drop_last()) + gens,
            VersionEditView::NewFile { .. } => deleted_gens(edits.drop_last()),
        }
    }
}

/// Whether one of the levels names the table with this gen.
pub open spec fn names(levels: Seq<Seq<ScopeView>>, gen: i64) -> bool {
    exists|depth: int, i: int|
        0 <= depth < levels.len() && 0 <= i < levels[depth].len() && (
        #[trigger] levels[depth][i]).gen == gen
}

/// The test that a gen passes when none of the levels names it.
pub open spec fn unnamed_in(levels: Seq<Seq<ScopeView>>) -> spec_fn(i64) -> bool {
    |gen: i64| !names(levels, gen)
}

/// The gens whose tables the edits let go: those that the edits delete
/// and that none of the levels, as they are after the edits, names. A gen
/// that an edit deletes and another edit puts back is not among them.
pub open spec fn released_gens(edits: Seq<VersionEditView>, levels: Seq<Seq<ScopeView>>) -> Seq<
    i64,
> {
    deleted_gens(edits).filter(unnamed_in(levels))
}

/// None of the levels names a gen whose table the edits let go.
pub proof fn lemma_released_gens_are_unnamed(
    edits: Seq<VersionEditView>,
    levels: Seq<Seq<ScopeView>>,
    i: int,
)
    requires
        0 <= i < released_gens(edits, levels).len(),
    ensures
        !names(levels, released_gens(edits, levels)[i]),
{
    deleted_gens(edits).lemma_filter_pred(unnamed_in(levels), i);
}

/// There are seven levels, and each level at depth one or more is ordered:
/// its scopes increase strictly by start key and do not overlap.
pub open spec fn levels_ordered(levels: Seq<Seq<ScopeView>>) -> bool {
    &&& levels.len() == LEVEL_COUNT
    &&& forall|depth: int| 1 <= depth < LEVEL_COUNT ==> level_ordered(#[trigger] levels[depth])
}

/// The version that follows `version` by the edits: the edits are applied in
/// order and the number goes up by one. There is none where an edit does not
/// fit, where a level at depth one or more would end up out of order, or
/// where the number cannot go up.
pub open spec fn successor(version: VersionView, edits: Seq<VersionEditView>) -> Option<
    VersionView,
> {
    match after_edits(version, edits) {
        Some(after) => if levels_ordered(after.levels) && version.version_num < u64::MAX {
            Some(
                VersionView {
                    version_num: (version.version_num + 1) as u64,
                    levels: after.levels,
                    meta: after.meta,
                },
            )
        } else {
            None
        },
        None => None,
    }
}

/// The version before any edit: number zero, seven empty levels, counters at
/// zero.
pub open spec fn empty_version() -> VersionView {
    VersionView {
        version_num: 0,
        levels: Seq::new(LEVEL_COUNT as nat, |depth: int| Seq::<ScopeView>::empty()),
        meta: VersionMeta { size_of_disk: 0, len: 0 },
    }
}

/// Whether every level before `depth` is empty.
pub open spec fn empty_before(levels: Seq<Seq<ScopeView>>, depth: int) -> bool {
    forall|d: int| 0 <= d < depth ==> (#[trigger] levels[d]).len() == 0
}

/// The counters that the edit carries which writes out the scopes of level
/// `depth` from `place` on, when a version is written out as edits: the
/// first edit of all carries the counters of the whole version, the edits
/// after it carry none.
pub open spec fn base_meta(version: VersionView, depth: int, place: int) -> TableMeta {
    if place == 0 && empty_before(version.levels, depth) {
        TableMeta { size_of_disk: version.meta.size_of_disk, len: version.meta.len }
    } else {
        TableMeta { size_of_disk: 0, len: 0 }
    }
}

/// The edit that writes out the scopes of level `depth` from place `from`
/// up to place `upto`: a `NewFile` with these scopes, to be put at the
/// place of the first of them.
pub open spec fn base_edit(version: VersionView, depth: int, from: int, upto: int)
    -> VersionEditView {
    VersionEditView::NewFile {
        scopes: version.levels[depth].subrange(from, upto),
        level: depth as usize,
        index: from as usize,
        meta: base_meta(version, depth, from),
    }
}

/// The edit with one more scope behind those that it holds.
pub open spec fn with_scope(edit: VersionEditView, scope: ScopeView) -> VersionEditView {
    match edit {
        VersionEditView::NewFile { scopes, level, index, meta } => VersionEditView::NewFile {
            scopes: scopes.push(scope),
            level,
            index,
            meta,
        },
        VersionEditView::DeleteFile { .. } => edit,
    }
}

/// The edits that write out the first `upto` scopes of level `depth`. A
/// scope whose gen is not below the gen of the scope before it joins the
/// edit of that scope; any other scope begins an edit of its own, to be
/// put at its place. So a level that stands in ascending order of gen is
/// one edit, and a level that does not is one edit for each stretch that
/// does: an edit has its scopes put in by gen.
pub open spec fn level_edits(version: VersionView, depth: int, upto: nat) -> Seq<VersionEditView>
    decreases upto,
{
    if upto == 0 {
        Seq::empty()
    } else {
        let before = level_edits(version, depth, (upto - 1) as nat);
        let level = version.levels[depth];
        if upto >= 2 && level[upto - 2].gen <= level[upto - 1].gen {
            before.drop_last().push(with_scope(before.last(), level[upto - 1]))
        } else {
            before.push(base_edit(version, depth, upto - 1, upto as int))
        }
    }
}

/// The edits that write out the first `depth` levels of a version, from
/// level 0 on.
pub open spec fn base_edits_upto(version: VersionView, depth: nat) -> Seq<VersionEditView>
    decreases depth,
{
    if depth == 0 {
        Seq::empty()
    } else {
        base_edits_upto(version, (depth - 1) as nat) + level_edits(
            version,
            depth - 1,
            version.levels[depth - 1].len(),
        )
    }
}

/// The place at which the stretch of ascending gens begins that holds the
/// scope at `place`.
pub open spec fn run_start(level: Seq<ScopeView>, place: int) -> int
    decreases place,
{
    if place <= 0 {
        0
    } else if level[place].gen < level[place - 1].gen {
        place
    } else {
        run_start(level, place - 1)
    }
}

/// The edits that write out a whole version.
pub open spec fn base_edits(version: VersionView) -> Seq<VersionEditView> {
    base_edits_upto(version, LEVEL_COUNT as nat)
}

/// The place in `level` of the last scope that starts at or before `key`;
/// 0 where no scope does.
pub open spec fn meet_index(level: Seq<ScopeView>, key: Seq<u8>) -> int {
    if exists|i: int| 0 <= i < level.len() && key_le(level[i].start, key) {
        choose|i: int|
            0 <= i < level.len() && key_le(level[i].start, key) && forall|j: int|
                i < j < level.len() ==> !key_le(#[trigger] level[j].start, key)
    } else {
        0
    }
}

/// Once a prefix of the edits does not fit, the whole sequence does not.
pub proof fn lemma_after_edits_stays_none(
    version: VersionView,
    edits: Seq<VersionEditView>,
    n: int,
)
    requires
        0 <= n <= edits.len(),
        after_edits(version, edits.take(n)) is None,
    ensures
        after_edits(version, edits) is None,
    decreases edits.len() - n,
{
    if n == edits.len() {
        assert(edits.take(n) =~= edits);
    } else {
        assert(edits.take(n + 1).drop_last() =~= edits.take(n));
        lemma_after_edits_stays_none(version, edits, n + 1);
    }
}

/// A sequence that is already in ascending order of gen is its own sorting.
pub proof fn lemma_sort_by_gen_of_sorted(scopes: Seq<ScopeView>)
    requires
        forall|i: int, j: int| 0 <= i < j < scopes.len() ==> scopes[i].gen <= scopes[j].gen,
    ensures
        sort_by_gen(scopes) == scopes,
    decreases scopes.len(),
{
    if scopes.len() > 0 {
        let front = scopes.drop_last();
        lemma_sort_by_gen_of_sorted(front);
        if front.len() > 0 {
            assert(front.last() == scopes[scopes.len() - 2]);
        }
        assert(front.push(scopes.last()) =~= scopes);
    }
}

/// Sorting by gen keeps every scope, as often as it was given.
pub proof fn lemma_sort_by_gen_permutes(scopes: Seq<ScopeView>)
    ensures
        sort_by_gen(scopes).to_multiset() == scopes.to_multiset(),
        sort_by_gen(scopes).len() == scopes.len(),
    decreases scopes.len(),
{
    broadcast use vstd::seq_lib::group_to_multiset_ensures;

    if scopes.len() > 0 {
        let front = scopes.drop_last();
        lemma_sort_by_gen_permutes(front);
        lemma_insert_by_gen_permutes(sort_by_gen(front), scopes.last());
        assert(front.push(scopes.last()) =~= scopes);
        sort_by_gen(scopes).to_multiset_ensures();
        scopes.to_multiset_ensures();
        sort_by_gen(front).to_multiset_ensures();
        front.to_multiset_ensures();
    }
}

proof fn lemma_insert_by_gen_permutes(sorted: Seq<ScopeView>, scope: ScopeView)
    ensures
        insert_by_gen(sorted, scope).to_multiset() == sorted.to_multiset().insert(scope),
        insert_by_gen(sorted, scope).len() == sorted.len() + 1,
    decreases sorted.len(),
{
    broadcast use vstd::seq_lib::group_to_multiset_ensures;

    if sorted.len() == 0 || sorted.last().gen <= scope.gen {
    } else {
        let front = sorted.drop_last();
        lemma_insert_by_gen_permutes(front, scope);
        assert(front.push(sorted.last()) =~= sorted);
    }
}

/// Sorting by gen yields a sequence in ascending order of gen.
pub proof fn lemma_sort_by_gen_ascends(scopes: Seq<ScopeView>)
    ensures
        forall|i: int, j: int|
            0 <= i < j < sort_by_gen(scopes).len() ==> sort_by_gen(scopes)[i].gen <= sort_by_gen(
                scopes,
            )[j].gen,
    decreases scopes.len(),
{
    if scopes.len() > 0 {
        lemma_sort_by_gen_ascends(scopes.drop_last());
        lemma_insert_by_gen_ascends(sort_by_gen(scopes.drop_last()), scopes.last());
    }
}

proof fn lemma_insert_by_gen_ascends(sorted: Seq<ScopeView>, scope: ScopeView)
    requires
        forall|i: int, j: int| 0 <= i < j < sorted.len() ==> sorted[i].gen <= sorted[j].gen,
    ensures
        forall|i: int, j: int|
            0 <= i < j < insert_by_gen(sorted, scope).len() ==> insert_by_gen(sorted, scope)[i].gen
                <= insert_by_gen(sorted, scope)[j].gen,
        forall|i: int|
            0 <= i < insert_by_gen(sorted, scope).len() ==> (insert_by_gen(sorted, scope)[i]
                == scope || exists|k: int|
                0 <= k < sorted.len() && sorted[k] == #[trigger] insert_by_gen(sorted, scope)[i]),
        insert_by_gen(sorted, scope).len() == sorted.len() + 1,
    decreases sorted.len(),
{
    if sorted.len() == 0 || sorted.last().gen <= scope.gen {
    } else {
        let front = sorted.drop_last();
        lemma_insert_by_gen_ascends(front, scope);
        let inner = insert_by_gen(front, scope);
        let out = inner.push(sorted.last());
        assert forall|i: int, j: int| 0 <= i < j < out.len() implies out[i].gen <= out[j].gen by {
            if j == out.len() - 1 {
                if inner[i] != scope {
                    let k = choose|k: int| 0 <= k < front.len() && front[k] == inner[i];
                    assert(sorted[k].gen <= sorted[sorted.len() - 1].gen);
                }
            }
        }
        assert forall|i: int| 0 <= i < out.len() implies (out[i] == scope || exists|k: int|
            0 <= k < sorted.len() && sorted[k] == #[trigger] out[i]) by {
            if i == out.len() - 1 {
                assert(sorted[sorted.len() - 1] == out[i]);
            } else if inner[i] != scope {
                let k = choose|k: int| 0 <= k < front.len() && front[k] == inner[i];
                assert(sorted[k] == out[i]);
            }
        }
    }
}

/// The counters after the edits that write out the levels before `depth`
/// and the first `upto` scopes of level `depth` were applied to the
/// version before any edit: those of the version, once there was an edit.
pub open spec fn base_counters(version: VersionView, depth: int, upto: int) -> VersionMeta {
    if upto == 0 && empty_before(version.levels, depth) {
        VersionMeta { size_of_disk: 0, len: 0 }
    } else {
        version.meta
    }
}

/// The levels before `depth` whole, the first `upto` scopes of level
/// `depth`, and empty levels from there on.
pub open spec fn first_levels(levels: Seq<Seq<ScopeView>>, depth: int, upto: int) -> Seq<
    Seq<ScopeView>,
> {
    Seq::new(
        LEVEL_COUNT as nat,
        |d: int|
            if d < depth {
                levels[d]
            } else if d == depth {
                levels[d].take(upto)
            } else {
                Seq::<ScopeView>::empty()
            },
    )
}

/// No level holds more scopes than a place in it can be written down.
pub open spec fn levels_sized(levels: Seq<Seq<ScopeView>>) -> bool {
    forall|d: int| 0 <= d < levels.len() ==> (#[trigger] levels[d]).len() <= usize::MAX
}

/// The levels before the next depth are empty where those before this
/// depth are and the level at this depth is.
pub proof fn lemma_empty_before_next(levels: Seq<Seq<ScopeView>>, depth: int)
    requires
        0 <= depth,
    ensures
        empty_before(levels, depth + 1) == (empty_before(levels, depth) && levels[depth].len()
            == 0),
{
    if empty_before(levels, depth) && levels[depth].len() == 0 {
        assert forall|e: int| 0 <= e < depth + 1 implies (#[trigger] levels[e]).len() == 0 by {
            if e < depth {
            }
        }
    }
    if empty_before(levels, depth + 1) {
        assert(levels[depth].len() == 0);
        assert forall|e: int| 0 <= e < depth implies (#[trigger] levels[e]).len() == 0 by {}
    }
}

/// The edits for the first `upto` scopes of a level end with the edit for
/// the stretch of ascending gens that ends there, behind the edits for the
/// scopes before that stretch.
pub proof fn lemma_level_edits_end(version: VersionView, depth: int, upto: nat)
    requires
        0 < upto <= version.levels[depth].len(),
    ensures
        ({
            let level = version.levels[depth];
            let start = run_start(level, upto - 1);
            &&& 0 <= start < upto
            &&& level_edits(version, depth, upto) == level_edits(version, depth, start as nat).push(
                base_edit(version, depth, start, upto as int),
            )
            &&& forall|i: int, j: int| start <= i < j < upto ==> level[i].gen <= level[j].gen
        }),
    decreases upto,
{
    let level = version.levels[depth];
    let last = level[upto - 1];
    if upto >= 2 && level[upto - 2].gen <= last.gen {
        let before = (upto - 1) as nat;
        lemma_level_edits_end(version, depth, before);
        let start = run_start(level, upto - 2);
        assert(run_start(level, upto - 1) == start);
        let front = level_edits(version, depth, start as nat);
        let edit = base_edit(version, depth, start, upto - 1);
        assert(level_edits(version, depth, before) == front.push(edit));
        assert(front.push(edit).drop_last() =~= front);
        assert(front.push(edit).last() == edit);
        assert(level.subrange(start, upto - 1).push(last) =~= level.subrange(start, upto as int));
        assert forall|i: int, j: int| start <= i < j < upto implies level[i].gen
            <= level[j].gen by {
            if j == upto - 1 && i < upto - 2 {
                assert(level[i].gen <= level[upto - 2].gen);
            }
        }
    } else {
        assert(run_start(level, upto - 1) == upto - 1);
    }
}

/// In a level whose gens do not descend the stretch of ascending gens
/// begins at the first place.
pub proof fn lemma_run_start_of_ascending(level: Seq<ScopeView>, place: int)
    requires
        0 <= place < level.len(),
        forall|i: int, j: int| 0 <= i < j < level.len() ==> level[i].gen <= level[j].gen,
    ensures
        run_start(level, place) == 0,
    decreases place,
{
    if place > 0 {
        lemma_run_start_of_ascending(level, place - 1);
    }
}

/// A level that stands in ascending order of gen is written out as one
/// edit, which holds all its scopes in their order and is to be put at
/// the first place.
pub proof fn lemma_ascending_level_is_one_edit(version: VersionView, depth: int)
    requires
        version.levels[depth].len() > 0,
        forall|i: int, j: int|
            0 <= i < j < version.levels[depth].len() ==> version.levels[depth][i].gen
                <= version.levels[depth][j].gen,
    ensures
        level_edits(version, depth, version.levels[depth].len()) == seq![
            VersionEditView::NewFile {
                scopes: version.levels[depth],
                level: depth as usize,
                index: 0,
                meta: base_meta(version, depth, 0),
            },
        ],
{
    let level = version.levels[depth];
    lemma_level_edits_end(version, depth, level.len());
    lemma_run_start_of_ascending(level, level.len() - 1);
    assert(level.subrange(0, level.len() as int) =~= level);
    assert(Seq::<VersionEditView>::empty().push(base_edit(version, depth, 0, level.len() as int))
        =~= seq![base_edit(version, depth, 0, level.len() as int)]);
}

/// The gens of every level ascend along the level.
pub open spec fn gens_ascend(levels: Seq<Seq<ScopeView>>) -> bool {
    forall|depth: int, i: int, j: int|
        0 <= depth < levels.len() && 0 <= i < j < levels[depth].len() ==> (
        #[trigger] levels[depth][i]).gen <= (#[trigger] levels[depth][j]).gen
}

/// One edit for each of the first `depth` levels that is not empty: a
/// `NewFile` with all scopes of the level in their order, to be put at
/// the first place.
pub open spec fn whole_level_edits(version: VersionView, depth: nat) -> Seq<VersionEditView>
    decreases depth,
{
    if depth == 0 {
        Seq::empty()
    } else {
        let before = whole_level_edits(version, (depth - 1) as nat);
        if version.levels[depth - 1].len() == 0 {
            before
        } else {
            before.push(
                VersionEditView::NewFile {
                    scopes: version.levels[depth - 1],
                    level: (depth - 1) as usize,
                    index: 0,
                    meta: base_meta(version, depth - 1, 0),
                },
            )
        }
    }
}

/// A version whose levels stand in ascending order of gen is written out
/// as one edit for each level that is not empty, which holds all scopes
/// of the level.
pub proof fn lemma_ascending_version_is_whole_levels(version: VersionView, depth: nat)
    requires
        gens_ascend(version.levels),
        depth <= version.levels.len(),
    ensures
        base_edits_upto(version, depth) == whole_level_edits(version, depth),
    decreases depth,
{
    if depth > 0 {
        let d = depth - 1;
        let level = version.levels[d];
        lemma_ascending_version_is_whole_levels(version, d as nat);
        let before = base_edits_upto(version, d as nat);
        if level.len() == 0 {
            assert(before + level_edits(version, d, 0) =~= before);
        } else {
            assert forall|i: int, j: int| 0 <= i < j < level.len() implies level[i].gen
                <= level[j].gen by {
                assert(version.levels[d][i].gen <= version.levels[d][j].gen);
            }
            lemma_ascending_level_is_one_edit(version, d);
            let edit = VersionEditView::NewFile {
                scopes: level,
                level: d as usize,
                index: 0,
                meta: base_meta(version, d, 0),
            };
            assert(before + seq![edit] =~= before.push(edit));
        }
    }
}

proof fn lemma_base_edits_rebuild_upto(version: VersionView, depth: nat, upto: nat)
    requires
        version.levels.len() == LEVEL_COUNT,
        levels_sized(version.levels),
        depth < LEVEL_COUNT,
        upto <= version.levels[depth as int].len(),
    ensures
        after_edits(
            empty_version(),
            base_edits_upto(version, depth) + level_edits(version, depth as int, upto),
        ) == Some(
            VersionView {
                version_num: 0,
                levels: first_levels(version.levels, depth as int, upto as int),
                meta: base_counters(version, depth as int, upto as int),
            },
        ),
    decreases depth, upto,
{
    let levels = version.levels;
    let edits = base_edits_upto(version, depth) + level_edits(version, depth as int, upto);
    if upto == 0 {
        assert(edits =~= base_edits_upto(version, depth));
        if depth == 0 {
            assert(first_levels(levels, 0, 0) =~~= empty_version().levels);
        } else {
            let d = (depth - 1) as nat;
            let len = levels[d as int].len();
            lemma_base_edits_rebuild_upto(version, d, len);
            lemma_empty_before_next(levels, d as int);
            assert(levels[d as int].take(len as int) =~= levels[d as int]);
            assert(levels[depth as int].take(0) =~= Seq::<ScopeView>::empty());
            assert(first_levels(levels, depth as int, 0) =~~= first_levels(
                levels,
                d as int,
                len as int,
            ));
        }
    } else {
        let whole = levels[depth as int];
        lemma_level_edits_end(version, depth as int, upto);
        let start = run_start(whole, upto - 1);
        lemma_base_edits_rebuild_upto(version, depth, start as nat);
        let front = base_edits_upto(version, depth) + level_edits(
            version,
            depth as int,
            start as nat,
        );
        let edit = base_edit(version, depth as int, start, upto as int);
        let stretch = whole.subrange(start, upto as int);
        assert(edits =~= front.push(edit));
        assert(edits.drop_last() =~= front);
        assert(edits.last() == edit);
        let state = after_edits(empty_version(), front).unwrap();
        let level = state.levels[depth as int];
        assert(level == whole.take(start));
        assert(whole.len() <= usize::MAX);
        assert forall|i: int, j: int| 0 <= i < j < stretch.len() implies stretch[i].gen
            <= stretch[j].gen by {
            assert(whole[start + i].gen <= whole[start + j].gen);
        }
        lemma_sort_by_gen_of_sorted(stretch);
        assert(level_after_edit(level, edit) =~= whole.take(upto as int));
        assert(state.levels.update(depth as int, whole.take(upto as int)) =~~= first_levels(
            levels,
            depth as int,
            upto as int,
        ));
    }
}

/// Writing a version out as edits and applying them to the version before
/// any edit gives the same levels back, each in its order, and the same
/// counters, unless the version names no table at all: then there are no
/// edits and the counters are zero. The rebuilt version has number one.
pub proof fn lemma_base_edits_rebuild_levels(version: VersionView)
    requires
        levels_ordered(version.levels),
        levels_sized(version.levels),
    ensures
        successor(empty_version(), base_edits(version)) == Some(
            VersionView {
                version_num: 1,
                levels: version.levels,
                meta: if empty_before(version.levels, LEVEL_COUNT as int) {
                    VersionMeta { size_of_disk: 0, len: 0 }
                } else {
                    version.meta
                },
            },
        ),
{
    let levels = version.levels;
    let last = (LEVEL_COUNT - 1) as nat;
    let len = levels[last as int].len();
    lemma_base_edits_rebuild_upto(version, last, len);
    lemma_empty_before_next(levels, last as int);
    assert(levels[last as int].take(len as int) =~= levels[last as int]);
    assert(first_levels(levels, last as int, len as int) =~~= levels);
    assert(base_edits(version) == base_edits_upto(version, last) + level_edits(
        version,
        last as int,
        len,
    ));
}

/// Whatever edits lead to a successor, each of its levels at depth one or
/// more increases strictly by start key, and no two scopes of such a level
/// share a key.
pub proof fn lemma_successor_levels_ordered(
    version: VersionView,
    edits: Seq<VersionEditView>,
    depth: int,
    i: int,
    j: int,
)
    requires
        successor(version, edits) is Some,
        1 <= depth < LEVEL_COUNT,
        0 <= i < j < successor(version, edits).unwrap().levels[depth].len(),
    ensures
        ({
            let level = successor(version, edits).unwrap().levels[depth];
            &&& key_lt(level[i].start, level[j].start)
            &&& key_lt(level[i].end, level[j].start)
            &&& !level[i].meets(level[j])
        }),
{
    let level = successor(version, edits).unwrap().levels[depth];
    assert(level_ordered(level));
    lemma_ordered_level_is_disjoint(level, i, j);
}

/// In an ordered level the place that `meet_index` names is the one place
/// whose scope starts at or before the key while every later scope starts
/// after it.
pub proof fn lemma_meet_index_is(level: Seq<ScopeView>, key: Seq<u8>, place: int)
    requires
        0 <= place < level.len(),
        key_le(level[place].start, key),
        forall|j: int| place < j < level.len() ==> !key_le(#[trigger] level[j].start, key),
    ensures
        meet_index(level, key) == place,
{
    let found = meet_index(level, key);
    assert(0 <= found < level.len() && key_le(level[found].start, key) && forall|j: int|
        found < j < level.len() ==> !key_le(#[trigger] level[j].start, key));
    if found < place {
        assert(!key_le(level[place].start, key));
    } else if place < found {
        assert(!key_le(level[found].start, key));
    }
}

/// In a level that is not empty, `meet_index` names a place of the level.
pub proof fn lemma_meet_index_in_level(level: Seq<ScopeView>, key: Seq<u8>)
    requires
        level.len() > 0,
        level_ordered(level),
    ensures
        0 <= meet_index(level, key) < level.len(),
{
    if exists|i: int| 0 <= i < level.len() && key_le(level[i].start, key) {
        lemma_last_start_at_or_before(level, key, level.len() as int);
    }
}

/// Among the first `upto` scopes of an ordered level, if one starts at or
/// before the key then one of them is the last to do so in the whole level
/// that lies before `upto`.
proof fn lemma_last_start_at_or_before(level: Seq<ScopeView>, key: Seq<u8>, upto: int)
    requires
        0 <= upto <= level.len(),
        exists|i: int| 0 <= i < upto && key_le(level[i].start, key),
        forall|j: int| upto <= j < level.len() ==> !key_le(#[trigger] level[j].start, key),
    ensures
        exists|i: int|
            0 <= i < level.len() && key_le(level[i].start, key) && forall|j: int|
                i < j < level.len() ==> !key_le(#[trigger] level[j].start, key),
    decreases upto,
{
    if key_le(level[upto - 1].start, key) {
        let i = upto - 1;
        assert(0 <= i < level.len() && key_le(level[i].start, key) && forall|j: int|
            i < j < level.len() ==> !key_le(#[trigger] level[j].start, key));
    } else {
        lemma_last_start_at_or_before(level, key, upto - 1);
    }
}

/// The value that the table with this gen holds for a key; none where the
/// table is not loaded.
pub open spec fn table_value(tables: Seq<TableView>, gen: i64, key: Seq<u8>) -> Option<Seq<u8>> {
    match table_of(tables, gen) {
        Some(table) => table.query(key),
        None => None,
    }
}

/// What level 0 holds for a key: its tables are asked from the newest, which
/// stands last, to the oldest, each only if its scope holds the key, and the
/// first value found counts.
pub open spec fn query_level_0(level: Seq<ScopeView>, tables: Seq<TableView>, key: Seq<u8>)
    -> Option<Seq<u8>>
    decreases level.len(),
{
    if level.len() == 0 {
        None
    } else {
        let newest = level.last();
        let hit = if newest.holds(key) {
            table_value(tables, newest.gen, key)
        } else {
            None
        };
        match hit {
            Some(value) => Some(value),
            None => query_level_0(level.drop_last(), tables, key),
        }
    }
}

/// What the levels from `depth` on hold for a key: in each level that is
/// not empty the one table at `meet_index` is asked, and the first value
/// found counts.
pub open spec fn query_deeper(
    levels: Seq<Seq<ScopeView>>,
    tables: Seq<TableView>,
    key: Seq<u8>,
    depth: int,
) -> Option<Seq<u8>>
    decreases LEVEL_COUNT - depth,
{
    if depth < 1 || depth >= LEVEL_COUNT {
        None
    } else {
        let level = levels[depth];
        let hit = if level.len() == 0 {
            None
        } else {
            table_value(tables, level[meet_index(level, key)].gen, key)
        };
        match hit {
            Some(value) => Some(value),
            None => query_deeper(levels, tables, key, depth + 1),
        }
    }
}

/// What the tables of a version hold for a key: level 0 is asked first,
/// then the deeper levels in order.
pub open spec fn query_tables(levels: Seq<Seq<ScopeView>>, tables: Seq<TableView>, key: Seq<u8>)
    -> Option<Seq<u8>> {
    match query_level_0(levels[0], tables, key) {
        Some(value) => Some(value),
        None => query_deeper(levels, tables, key, 1),
    }
}

/// The test that a scope passes when its table is loaded and, where a
/// target is given, its range overlaps that of the target.
pub open spec fn pick_test(tables: Seq<TableView>, target: Option<ScopeView>) -> spec_fn(
    ScopeView,
) -> bool {
    |scope: ScopeView|
        has_table(tables, scope.gen) && (target matches Some(other) ==> scope.meets(other))
}

/// The scopes that pass `pick_test`, in their order.
pub open spec fn picked(scopes: Seq<ScopeView>, tables: Seq<TableView>, target: Option<ScopeView>)
    -> Seq<ScopeView> {
    scopes.filter(pick_test(tables, target))
}

/// Of the scopes, those that are marked and whose table is loaded, in
/// their order.
pub open spec fn chosen(scopes: Seq<ScopeView>, marks: Seq<bool>, tables: Seq<TableView>) -> Seq<
    ScopeView,
>
    decreases scopes.len(),
{
    if scopes.len() == 0 {
        scopes
    } else {
        let rest = chosen(scopes.drop_last(), marks.drop_last(), tables);
        if marks.last() && has_table(tables, scopes.last().gen) {
            rest.push(scopes.last())
        } else {
            rest
        }
    }
}

/// The tables that the scopes name, in the order of the scopes.
pub open spec fn tables_of(scopes: Seq<ScopeView>, tables: Seq<TableView>) -> Seq<TableView> {
    scopes.map_values(|scope: ScopeView| table_of(tables, scope.gen).unwrap())
}

} // verus!
