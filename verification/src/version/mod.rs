//! The table membership of the store, level by level, and the edits that
//! lead from one version of it to the next.

pub mod cleaner;
pub mod codec;
pub mod edit;
pub mod meta;
pub mod model;

use vstd::prelude::*;
use itertools::Itertools;
use crate::config::{level_capacity, Config};
use crate::error::KvsError;
use crate::log::{read_record, record_at, Record};
use crate::table::{table_of, Table, TableLoader};
use crate::scope::{is_level_ordered, level_ordered, Scope, ScopeView};
use crate::version::cleaner::CleanTag;
use crate::version::edit::{VersionEdit, VersionEditView};
use crate::keys::{key_le, key_order, KeyOrder};
use crate::keys::{lemma_key_le_iff_not_gt, lemma_key_le_transitive};
use crate::scope::lemma_ordered_level_is_disjoint;
use crate::version::meta::{TableMeta, VersionMeta};
use crate::version::model::{
    after_edits, base_edit, base_edits, base_edits_upto, deleted_gens, edit_fits, empty_before,
    empty_version, gen_not_in, lemma_base_edits_rebuild_levels, lemma_empty_before_next,
    gens_ascend, lemma_ascending_version_is_whole_levels, whole_level_edits,
    lemma_level_edits_end, lemma_released_gens_are_unnamed, level_edits, names, released_gens,
    run_start, unnamed_in,
    insert_all, lemma_after_edits_stays_none, lemma_meet_index_is, level_after_edit,
    chosen, levels_ordered, meet_index, pick_test, picked, query_deeper, query_level_0,
    query_tables,
    sort_by_gen, successor, tables_of, without_gens, VersionView, LEVEL_0, LEVEL_COUNT,
};

verus! {

/// The segment of the version log from which a store is loaded.
#[derive(Clone, Copy, Debug, PartialEq, Eq, Structural)]
pub enum SnapshotGen {
    /// The segment with this gen holds the snapshot. Where `discard` names a
    /// gen, that newer segment was begun and never completed: it is to be
    /// deleted before the snapshot is read.
    Existing { gen: i64, discard: Option<i64> },
    /// There is no segment yet: the log starts with a newly made gen.
    Fresh,
}

/// Whether a segment of the version log is complete: it begins with a
/// whole record, which holds the version that the segment starts from,
/// written out as edits.
pub open spec fn holds_snapshot(segment: Seq<u8>) -> bool {
    record_at(segment, 0) is Record
}

/// Whether a segment of the version log is complete. A segment that was
/// begun and broke off before its first record was whole is not, and one
/// whose first record is corrupt is not either.
pub fn is_complete_segment(segment: &[u8]) -> (r: bool)
    ensures
        r == holds_snapshot(segment@),
{
    match read_record(segment, 0) {
        Ok(Record::Payload { .. }) => true,
        _ => false,
    }
}

/// What `snapshot_gen` answers for the gens of the segments found, oldest
/// first. A single segment is the snapshot. Of two or more segments the
/// newest is the snapshot where it is complete, and nothing is discarded;
/// where it is not, the one before it is the snapshot and the newest is
/// discarded. With no segment, or where they could not be listed, the log
/// starts afresh.
pub open spec fn snapshot_choice(gen_list: Option<Seq<i64>>, newest_complete: bool) -> SnapshotGen {
    match gen_list {
        Some(gens) => if gens.len() >= 2 {
            if newest_complete {
                SnapshotGen::Existing { gen: gens[gens.len() - 1], discard: None }
            } else {
                SnapshotGen::Existing {
                    gen: gens[gens.len() - 2],
                    discard: Some(gens[gens.len() - 1]),
                }
            }
        } else if gens.len() == 1 {
            SnapshotGen::Existing { gen: gens[0], discard: None }
        } else {
            SnapshotGen::Fresh
        },
        None => SnapshotGen::Fresh,
    }
}

/// Chooses the segment of the version log to load, given the gens of the
/// segments on disk in ascending order, or `None` where the directory could
/// not be listed, and whether the newest of the segments is complete.
pub fn snapshot_gen(gen_list: Option<&Vec<i64>>, newest_complete: bool) -> (r: SnapshotGen)
    ensures
        r == snapshot_choice(
            match gen_list {
                Some(gens) => Some(gens@),
                None => None,
            },
            newest_complete,
        ),
{
    match gen_list {
        Some(gens) => {
            let count = gens.len();
            if count >= 2 {
                if newest_complete {
                    SnapshotGen::Existing { gen: gens[count - 1], discard: None }
                } else {
                    SnapshotGen::Existing { gen: gens[count - 2], discard: Some(gens[count - 1]) }
                }
            } else if count == 1 {
                SnapshotGen::Existing { gen: gens[0], discard: None }
            } else {
                SnapshotGen::Fresh
            }
        },
        None => SnapshotGen::Fresh,
    }
}

/// The number of installations that a segment of the version log takes
/// before the log is switched to a new segment.
pub const DEFAULT_VERSION_LOG_THRESHOLD: usize = 233;

/// Whether a segment of the version log that holds this many installations
/// is full, so that the log is to be switched to a new segment, which
/// starts with the current version written out as edits.
pub fn is_log_full(installations: usize) -> (r: bool)
    ensures
        r == (installations >= DEFAULT_VERSION_LOG_THRESHOLD),
{
    installations >= DEFAULT_VERSION_LOG_THRESHOLD
}

/// Whether `marks` holds, scope by scope, what the test `fn_meet` answered
/// for the scopes.
pub open spec fn answers_of<F: Fn(&Scope) -> bool>(
    fn_meet: F,
    scopes: Seq<Scope>,
    marks: Seq<bool>,
) -> bool {
    &&& marks.len() == scopes.len()
    &&& forall|i: int|
        0 <= i < marks.len() ==> call_ensures(fn_meet, (&scopes[i],), #[trigger] marks[i])
}

/// The scopes of the seven levels, level 0 first.
pub type LevelSlice = [Vec<Scope>; 7];

/// An immutable snapshot of which tables make up the store: for each level
/// the scopes of its tables in their order, and the counters over all of
/// them.
#[derive(Debug)]
pub struct Version {
    pub(crate) version_num: u64,
    pub(crate) level_slice: LevelSlice,
    pub(crate) meta_data: VersionMeta,
}

impl View for Version {
    type V = VersionView;

    closed spec fn view(&self) -> VersionView {
        VersionView {
            version_num: self.version_num,
            levels: self.level_slice.deep_view(),
            meta: self.meta_data,
        }
    }
}

/// Calls `Itertools::sorted_by_key` with the gen as key. The result holds
/// the given scopes in ascending order of gen; the sort is stable, so scopes
/// of one gen keep the order in which they were given.
#[verifier::external_body]
fn sorted_by_gen(scopes: Vec<Scope>) -> (r: Vec<Scope>)
    ensures
        r.deep_view() == sort_by_gen(scopes.deep_view()),
{
    scopes.into_iter().sorted_by_key(Scope::get_gen).collect()
}

/// Whether `gen` is among `gens`.
fn has_gen(gens: &Vec<i64>, gen: i64) -> (r: bool)
    ensures
        r == gens@.contains(gen),
{
    let mut i: usize = 0;
    while i < gens.len()
        invariant
            i <= gens.len(),
            forall|k: int| 0 <= k < i ==> gens@[k] != gen,
        decreases gens.len() - i,
    {
        if gens[i] == gen {
            return true;
        }
        i += 1;
    }
    false
}

/// Whether one of the levels names the table with this gen.
fn levels_name(levels: &LevelSlice, gen: i64) -> (r: bool)
    ensures
        r == names(levels.deep_view(), gen),
{
    let ghost views = levels.deep_view();
    let mut depth: usize = 0;
    while depth < LEVEL_COUNT
        invariant
            depth <= LEVEL_COUNT,
            views == levels.deep_view(),
            forall|d: int, i: int|
                0 <= d < depth && 0 <= i < views[d].len() ==> (#[trigger] views[d][i]).gen != gen,
        decreases LEVEL_COUNT - depth,
    {
        let level = &levels[depth];
        assert(views[depth as int] == level.deep_view());
        let mut i: usize = 0;
        while i < level.len()
            invariant
                i <= level.len(),
                depth < LEVEL_COUNT,
                views == levels.deep_view(),
                views[depth as int] == level.deep_view(),
                forall|k: int| 0 <= k < i ==> (#[trigger] views[depth as int][k]).gen != gen,
            decreases level.len() - i,
        {
            assert(views[depth as int][i as int] == level[i as int]@);
            if level[i].get_gen() == gen {
                return true;
            }
            i += 1;
        }
        depth += 1;
    }
    false
}

/// Those of the gens that none of the levels names, in their order.
fn unnamed_gens(gens: &Vec<i64>, levels: &LevelSlice) -> (r: Vec<i64>)
    ensures
        r@ == gens@.filter(unnamed_in(levels.deep_view())),
{
    let ghost test = unnamed_in(levels.deep_view());
    let mut kept: Vec<i64> = Vec::new();
    let mut i: usize = 0;
    assert(gens@.take(0) =~= Seq::<i64>::empty());
    assert(kept@ =~= gens@.take(0).filter(test)) by {
        reveal(Seq::filter);
    }
    while i < gens.len()
        invariant
            i <= gens.len(),
            test == unnamed_in(levels.deep_view()),
            kept@ == gens@.take(i as int).filter(test),
        decreases gens.len() - i,
    {
        let gen = gens[i];
        proof {
            gens@.take(i as int).lemma_filter_push(gen, test);
            assert(gens@.take(i + 1) =~= gens@.take(i as int).push(gen));
        }
        if !levels_name(levels, gen) {
            kept.push(gen);
        }
        i += 1;
    }
    assert(gens@.take(i as int) =~= gens@);
    kept
}

/// The scopes of `level` whose gen is not among `gens`.
fn retain_other_gens(level: &Vec<Scope>, gens: &Vec<i64>) -> (r: Vec<Scope>)
    ensures
        r.deep_view() == without_gens(level.deep_view(), gens@),
{
    let ghost views = level.deep_view();
    let mut kept: Vec<Scope> = Vec::new();
    let mut i: usize = 0;
    proof {
        reveal(Seq::filter);
        assert(views.take(0) =~= Seq::<ScopeView>::empty());
        assert(kept.deep_view() =~= Seq::<ScopeView>::empty());
    }
    while i < level.len()
        invariant
            i <= level.len(),
            views == level.deep_view(),
            kept.deep_view() == without_gens(views.take(i as int), gens@),
        decreases level.len() - i,
    {
        let scope = &level[i];
        proof {
            assert(views.take(i + 1) =~= views.take(i as int).push(scope@));
            views.take(i as int).lemma_filter_push(scope@, gen_not_in(gens@));
        }
        if !has_gen(gens, scope.gen) {
            let ghost before = kept.deep_view();
            kept.push(scope.clone());
            assert(kept.deep_view() =~= before.push(scope@));
        }
        i += 1;
    }
    assert(views.take(i as int) =~= views);
    kept
}

/// A copy of the seven levels.
fn clone_levels(levels: &LevelSlice) -> (r: LevelSlice)
    ensures
        r.deep_view() == levels.deep_view(),
{
    let r = [
        levels[0].clone(),
        levels[1].clone(),
        levels[2].clone(),
        levels[3].clone(),
        levels[4].clone(),
        levels[5].clone(),
        levels[6].clone(),
    ];
    assert(r.deep_view() =~~= levels.deep_view());
    r
}

/// Whether each level at depth one or more is in order.
fn are_levels_ordered(levels: &LevelSlice) -> (r: bool)
    ensures
        r == levels_ordered(levels.deep_view()),
{
    let mut depth: usize = 1;
    while depth < LEVEL_COUNT
        invariant
            1 <= depth <= LEVEL_COUNT,
            forall|d: int| 1 <= d < depth ==> level_ordered(#[trigger] levels.deep_view()[d]),
        decreases LEVEL_COUNT - depth,
    {
        assert(levels.deep_view()[depth as int] == levels[depth as int].deep_view());
        if !is_level_ordered(&levels[depth]) {
            return false;
        }
        depth += 1;
    }
    true
}

/// When one level changed and the others did not, the view of the levels is
/// the old one with that level replaced.
proof fn lemma_one_level_changed(before: LevelSlice, after: LevelSlice, depth: int)
    requires
        0 <= depth < LEVEL_COUNT,
        forall|d: int| 0 <= d < LEVEL_COUNT && d != depth ==> after@[d] == before@[d],
    ensures
        after.deep_view() == before.deep_view().update(depth, after@[depth].deep_view()),
{
    assert(after.deep_view() =~= before.deep_view().update(depth, after@[depth].deep_view()));
}

/// Puts the scopes at the end of the level, in their order.
fn push_all(level: &mut Vec<Scope>, scopes: Vec<Scope>)
    ensures
        final(level).deep_view() == old(level).deep_view() + scopes.deep_view(),
{
    let ghost start = level.deep_view();
    let ghost incoming = scopes.deep_view();
    let mut i: usize = 0;
    assert(start + incoming.take(0) =~= start);
    while i < scopes.len()
        invariant
            i <= scopes.len(),
            incoming == scopes.deep_view(),
            level.deep_view() == start + incoming.take(i as int),
        decreases scopes.len() - i,
    {
        let ghost before = level.deep_view();
        level.push(scopes[i].clone());
        proof {
            assert(level.deep_view() =~= before.push(incoming[i as int]));
            assert(incoming.take(i + 1) =~= incoming.take(i as int).push(incoming[i as int]));
            assert(start + incoming.take(i + 1) =~= (start + incoming.take(i as int)).push(
                incoming[i as int],
            ));
        }
        i += 1;
    }
    assert(incoming.take(i as int) =~= incoming);
}

/// Puts the scopes into the level at place `index`, in their order: from the
/// last to the first, each is inserted at that same place.
fn insert_all_at(level: &mut Vec<Scope>, index: usize, scopes: Vec<Scope>)
    requires
        index <= old(level).len(),
    ensures
        final(level).deep_view() == insert_all(
            old(level).deep_view(),
            index as int,
            scopes.deep_view(),
        ),
{
    let ghost start = level.deep_view();
    let ghost incoming = scopes.deep_view();
    let ghost total = scopes.len() as int;
    let mut rest = scopes;
    assert(incoming.subrange(total, total) =~= Seq::<ScopeView>::empty());
    assert(insert_all(start, index as int, Seq::<ScopeView>::empty()) =~= start);
    while rest.len() > 0
        invariant
            rest.len() <= total,
            total == incoming.len(),
            index <= start.len(),
            rest.deep_view() == incoming.take(rest.len() as int),
            level.len() == start.len() + total - rest.len(),
            level.deep_view() == insert_all(
                start,
                index as int,
                incoming.subrange(rest.len() as int, total),
            ),
        decreases rest.len(),
    {
        let ghost before = level.deep_view();
        let ghost left = rest.len() as int;
        let ghost rest_before = rest.deep_view();
        assert(rest_before[left - 1] == rest@[left - 1]@);
        match rest.pop() {
            Some(scope) => {
                assert(scope@ == incoming[left - 1]);
                level.insert(index, scope);
                proof {
                    assert(rest.deep_view() =~= incoming.take(left - 1));
                    assert(level.deep_view() =~= before.insert(index as int, incoming[left - 1]));
                    assert(before.insert(index as int, incoming[left - 1]) =~= insert_all(
                        start,
                        index as int,
                        incoming.subrange(left - 1, total),
                    ));
                }
            },
            None => {},
        }
    }
    assert(incoming.subrange(0, total) =~= incoming);
}

/// Applies one edit to the levels. The levels are left as they were where
/// the edit does not fit.
fn apply_to_levels(levels: &mut LevelSlice, edit: &VersionEdit) -> (fits: bool)
    ensures
        fits == edit_fits(old(levels).deep_view(), edit@),
        fits ==> final(levels).deep_view() == old(levels).deep_view().update(
            edit@.level() as int,
            level_after_edit(old(levels).deep_view()[edit@.level() as int], edit@),
        ),
        !fits ==> final(levels).deep_view() == old(levels).deep_view(),
{
    let ghost before = *levels;
    match edit {
        VersionEdit::DeleteFile((gens, level), _) => {
            if *level >= LEVEL_COUNT {
                return false;
            }
            assert(before.deep_view()[*level as int] == before@[*level as int].deep_view());
            let kept = retain_other_gens(&levels[*level], gens);
            levels[*level] = kept;
            proof {
                lemma_one_level_changed(before, *levels, *level as int);
            }
            true
        },
        VersionEdit::NewFile((scopes, level), index, _) => {
            if *level >= LEVEL_COUNT {
                return false;
            }
            assert(before.deep_view()[*level as int] == before@[*level as int].deep_view());
            if *level != LEVEL_0 && *index > levels[*level].len() {
                return false;
            }
            let copies = scopes.clone();
            assert(copies.deep_view() =~= scopes.deep_view());
            let sorted = sorted_by_gen(copies);
            if *level == LEVEL_0 {
                // level 0 is read by gen, newest last: the new scopes go to its end
                push_all(&mut levels[*level], sorted);
            } else {
                insert_all_at(&mut levels[*level], *index, sorted);
            }
            proof {
                lemma_one_level_changed(before, *levels, *level as int);
            }
            true
        },
    }
}

impl Version {
    /// Every version has seven levels, and its levels at depth one or more
    /// are ordered.
    #[verifier::type_invariant]
    spec fn well_formed(&self) -> bool {
        levels_ordered(self.level_slice.deep_view())
    }

    fn level_slice_new() -> (r: LevelSlice)
        ensures
            r.deep_view() == empty_version().levels,
    {
        let r: LevelSlice = [
            Vec::new(),
            Vec::new(),
            Vec::new(),
            Vec::new(),
            Vec::new(),
            Vec::new(),
            Vec::new(),
        ];
        assert(r.deep_view() =~~= empty_version().levels);
        r
    }

    /// The version before any edit.
    pub fn new() -> (r: Version)
        ensures
            r@ == empty_version(),
            levels_ordered(r@.levels),
    {
        let level_slice = Self::level_slice_new();
        Version {
            version_num: 0,
            level_slice,
            meta_data: VersionMeta { size_of_disk: 0, len: 0 },
        }
    }

    /// The number of this version: how many times edits were applied.
    pub fn version_num(&self) -> (r: u64)
        ensures
            r == self@.version_num,
    {
        self.version_num
    }

    /// The number of entries over all tables.
    pub fn len(&self) -> (r: usize)
        ensures
            r == self@.meta.len,
    {
        self.meta_data.len
    }

    /// Whether the tables hold no entry.
    pub fn is_empty(&self) -> (r: bool)
        ensures
            r == (self@.meta.len == 0),
    {
        self.len() == 0
    }

    /// The number of tables of a level.
    pub fn level_len(&self, level: usize) -> (r: usize)
        requires
            level < LEVEL_COUNT,
        ensures
            r == self@.levels[level as int].len(),
    {
        assert(self.level_slice.deep_view()[level as int] == self.level_slice[level as int].deep_view());
        self.level_slice[level].len()
    }

    /// The counters over all tables.
    pub fn meta(&self) -> (r: VersionMeta)
        ensures
            r == self@.meta,
    {
        self.meta_data
    }

    /// The bytes on disk over all tables.
    pub fn size_of_disk(&self) -> (r: u64)
        ensures
            r == self@.meta.size_of_disk,
    {
        self.meta_data.size_of_disk
    }

    /// The scopes of a level, in their order.
    pub fn level_scopes(&self, level: usize) -> (r: &Vec<Scope>)
        requires
            level < LEVEL_COUNT,
        ensures
            r.deep_view() == self@.levels[level as int],
            levels_ordered(self@.levels),
    {
        proof {
            use_type_invariant(self);
        }
        assert(self.level_slice.deep_view()[level as int] == self.level_slice[level as int].deep_view());
        &self.level_slice[level]
    }

    /// The version that a log of edits describes: the edits applied to the
    /// version before any edit. With it comes the message for the cleaner.
    pub fn load_from_log(vec_log: Vec<VersionEdit>) -> (r: Result<(Version, CleanTag), KvsError>)
        ensures
            match r {
                Ok((version, tag)) => {
                    &&& successor(empty_version(), vec_log.deep_view()) == Some(version@)
                    &&& levels_ordered(version@.levels)
                    &&& tag matches CleanTag::Add { version: number, gens }
                    &&& number == version@.version_num
                    &&& gens@ == released_gens(vec_log.deep_view(), version@.levels)
                },
                Err(e) => e == KvsError::Internal && successor(
                    empty_version(),
                    vec_log.deep_view(),
                ) is None,
            },
    {
        let mut version = Version::new();
        match version.apply(vec_log) {
            Ok(tag) => Ok((version, tag)),
            Err(e) => Err(e),
        }
    }

    /// Turns this version into its successor by the edits, and returns the
    /// message that tells the cleaner which gens the successor no longer
    /// refers to: the gens that the edits delete, but for those that the
    /// successor still names, the table of which was moved and not let go.
    /// The edits are applied in order: a `DeleteFile` takes the
    /// named gens out of its level, a `NewFile` puts its scopes, sorted by
    /// gen, at the end of level 0 or at its place in a deeper level. Edits
    /// that do not fit, or that would leave a deeper level out of order, are
    /// refused as a whole, and the version stays as it was.
    pub fn apply(&mut self, vec_version_edit: Vec<VersionEdit>) -> (r: Result<CleanTag, KvsError>)
        ensures
            match r {
                Ok(tag) => {
                    &&& successor(old(self)@, vec_version_edit.deep_view()) == Some(final(self)@)
                    &&& tag matches CleanTag::Add { version, gens }
                    &&& version == final(self)@.version_num
                    &&& gens@ == released_gens(vec_version_edit.deep_view(), final(self)@.levels)
                    &&& forall|i: int|
                        0 <= i < gens@.len() ==> !names(final(self)@.levels, #[trigger] gens@[i])
                },
                Err(e) => e == KvsError::Internal && successor(
                    old(self)@,
                    vec_version_edit.deep_view(),
                ) is None && final(self)@ == old(self)@,
            },
            levels_ordered(final(self)@.levels),
    {
        proof {
            use_type_invariant(&*self);
        }
        match self.edited(&vec_version_edit) {
            Some((levels, meta, del_gens)) => {
                if !are_levels_ordered(&levels) || self.version_num == u64::MAX {
                    return Err(KvsError::Internal);
                }
                let gone = unnamed_gens(&del_gens, &levels);
                proof {
                    let edits = vec_version_edit.deep_view();
                    assert forall|i: int| 0 <= i < gone@.len() implies !names(
                        levels.deep_view(),
                        #[trigger] gone@[i],
                    ) by {
                        lemma_released_gens_are_unnamed(edits, levels.deep_view(), i);
                    }
                }
                self.level_slice = levels;
                self.meta_data = meta;
                self.version_num = self.version_num + 1;
                Ok(CleanTag::Add { version: self.version_num, gens: gone })
            },
            None => Err(KvsError::Internal),
        }
    }

    /// The successor of this version by the edits, where there is one;
    /// this version stays as it is. So a caller can tell, before the edits
    /// are logged, whether they will be taken.
    pub fn successor_by(&self, vec_version_edit: &Vec<VersionEdit>) -> (r: Option<Version>)
        ensures
            match r {
                Some(next) => successor(self@, vec_version_edit.deep_view()) == Some(next@),
                None => successor(self@, vec_version_edit.deep_view()) is None,
            },
    {
        proof {
            use_type_invariant(self);
        }
        match self.edited(vec_version_edit) {
            Some((levels, meta, _)) => {
                if !are_levels_ordered(&levels) || self.version_num == u64::MAX {
                    return None;
                }
                Some(
                    Version {
                        version_num: self.version_num + 1,
                        level_slice: levels,
                        meta_data: meta,
                    },
                )
            },
            None => None,
        }
    }

    /// The levels and counters after the edits, with the gens that the
    /// edits delete; `None` where an edit does not fit.
    fn edited(&self, vec_version_edit: &Vec<VersionEdit>) -> (r: Option<
        (LevelSlice, VersionMeta, Vec<i64>),
    >)
        ensures
            match r {
                Some((levels, meta, gens)) => {
                    &&& after_edits(self@, vec_version_edit.deep_view()) == Some(
                        VersionView {
                            version_num: self@.version_num,
                            levels: levels.deep_view(),
                            meta,
                        },
                    )
                    &&& gens@ == deleted_gens(vec_version_edit.deep_view())
                },
                None => after_edits(self@, vec_version_edit.deep_view()) is None,
            },
    {
        let ghost edits = vec_version_edit.deep_view();
        let ghost start = self@;
        let mut levels = clone_levels(&self.level_slice);
        let mut meta = self.meta_data;
        let mut del_gens: Vec<i64> = Vec::new();
        let mut i: usize = 0;
        assert(edits.take(0) =~= Seq::<VersionEditView>::empty());
        while i < vec_version_edit.len()
            invariant
                i <= vec_version_edit.len(),
                edits == vec_version_edit.deep_view(),
                start == self@,
                after_edits(start, edits.take(i as int)) == Some(
                    VersionView {
                        version_num: start.version_num,
                        levels: levels.deep_view(),
                        meta,
                    },
                ),
                del_gens@ == deleted_gens(edits.take(i as int)),
            decreases vec_version_edit.len() - i,
        {
            let edit = &vec_version_edit[i];
            proof {
                assert(edits[i as int] == edit@);
                assert(edits.take(i + 1).drop_last() =~= edits.take(i as int));
                assert(edits.take(i + 1).last() == edit@);
            }
            let counted = match edit {
                VersionEdit::DeleteFile(_, gone) => meta.removed(gone),
                VersionEdit::NewFile(_, _, come) => meta.added(come),
            };
            let fits = apply_to_levels(&mut levels, edit);
            match counted {
                Some(next) if fits => {
                    meta = next;
                },
                _ => {
                    proof {
                        lemma_after_edits_stays_none(start, edits, i + 1);
                    }
                    return None;
                },
            }
            match edit {
                VersionEdit::DeleteFile((gens, _), _) => {
                    let ghost before = del_gens@;
                    let mut k: usize = 0;
                    while k < gens.len()
                        invariant
                            k <= gens.len(),
                            del_gens@ == before + gens@.take(k as int),
                        decreases gens.len() - k,
                    {
                        del_gens.push(gens[k]);
                        assert(gens@.take(k + 1) =~= gens@.take(k as int).push(gens@[k as int]));
                        k += 1;
                    }
                    assert(gens@.take(k as int) =~= gens@);
                },
                VersionEdit::NewFile(_, _, _) => {},
            }
            i += 1;
        }
        assert(edits.take(i as int) =~= edits);
        Some((levels, meta, del_gens))
    }

    /// The counters that an edit carries in `to_vec_edit`: those of the
    /// whole version for the first edit, none for the edits after it.
    fn sst_meta_by_level(first: bool, size_of_disk: u64, len: usize) -> (r: TableMeta)
        ensures
            r == if first {
                TableMeta { size_of_disk, len }
            } else {
                TableMeta { size_of_disk: 0, len: 0 }
            },
    {
        if first {
            TableMeta { size_of_disk, len }
        } else {
            TableMeta::default()
        }
    }

    /// Writes this version out as edits, to stand at the head of a new log:
    /// one `NewFile` for each level that is not empty and stands in
    /// ascending order of gen, with all its scopes, to be put at the first
    /// place. A level that does not stand in that order is written out
    /// stretch by stretch, one `NewFile` for each stretch of ascending
    /// gens, to be put where the stretch begins: an edit has its scopes
    /// put in by gen. The first edit carries the counters of the version,
    /// so that the edits add up to them. Applied to the version before
    /// any edit, the edits give the levels and the counters of this
    /// version back.
    pub fn to_vec_edit(&self) -> (r: Vec<VersionEdit>)
        ensures
            r.deep_view() == base_edits(self@),
            gens_ascend(self@.levels) ==> r.deep_view() == whole_level_edits(
                self@,
                LEVEL_COUNT as nat,
            ),
            successor(empty_version(), r.deep_view()) == Some(
                VersionView {
                    version_num: 1,
                    levels: self@.levels,
                    meta: if empty_before(self@.levels, LEVEL_COUNT as int) {
                        VersionMeta { size_of_disk: 0, len: 0 }
                    } else {
                        self@.meta
                    },
                },
            ),
    {
        proof {
            use_type_invariant(self);
            assert forall|d: int| 0 <= d < self@.levels.len() implies (
            #[trigger] self@.levels[d]).len() <= usize::MAX by {
                let scopes = self.level_slice[d];
                assert(self.level_slice.deep_view()[d] == scopes.deep_view());
                assert(scopes.deep_view().len() == scopes.len());
            }
            lemma_base_edits_rebuild_levels(self@);
            if gens_ascend(self@.levels) {
                lemma_ascending_version_is_whole_levels(self@, LEVEL_COUNT as nat);
            }
        }
        let mut vec_edit: Vec<VersionEdit> = Vec::new();
        let mut level: usize = 0;
        let mut first = true;
        assert(vec_edit.deep_view() =~= Seq::<VersionEditView>::empty());
        while level < LEVEL_COUNT
            invariant
                level <= LEVEL_COUNT,
                vec_edit.deep_view() == base_edits_upto(self@, level as nat),
                first == empty_before(self@.levels, level as int),
            decreases LEVEL_COUNT - level,
        {
            assert(self.level_slice.deep_view()[level as int] == self.level_slice[level as int].deep_view());
            let scopes = &self.level_slice[level];
            let ghost views = scopes.deep_view();
            let ghost before_level = vec_edit.deep_view();
            let mut start: usize = 0;
            assert(vec_edit.deep_view() =~= before_level + level_edits(self@, level as int, 0));
            while start < scopes.len()
                invariant
                    start <= scopes.len(),
                    level < LEVEL_COUNT,
                    views == scopes.deep_view(),
                    views == self@.levels[level as int],
                    before_level == base_edits_upto(self@, level as nat),
                    vec_edit.deep_view() == before_level + level_edits(
                        self@,
                        level as int,
                        start as nat,
                    ),
                    first == (start == 0 && empty_before(self@.levels, level as int)),
                    start == 0 || start == scopes.len() || views[start as int].gen < views[start
                        - 1].gen,
                decreases scopes.len() - start,
            {
                // the stretch of ascending gens that begins here
                let mut stretch: Vec<Scope> = Vec::new();
                stretch.push(scopes[start].clone());
                let mut end: usize = start + 1;
                assert(stretch.deep_view() =~= views.subrange(start as int, end as int));
                assert(run_start(views, start as int) == start);
                while end < scopes.len() && scopes[end - 1].get_gen() <= scopes[end].get_gen()
                    invariant
                        start < end <= scopes.len(),
                        views == scopes.deep_view(),
                        stretch.deep_view() == views.subrange(start as int, end as int),
                        run_start(views, end - 1) == start,
                    decreases scopes.len() - end,
                {
                    assert(views[end as int] == scopes[end as int]@);
                    assert(views[end - 1] == scopes[end - 1]@);
                    let ghost held = stretch.deep_view();
                    stretch.push(scopes[end].clone());
                    assert(stretch.deep_view() =~= held.push(views[end as int]));
                    assert(held.push(views[end as int]) =~= views.subrange(
                        start as int,
                        end + 1,
                    ));
                    assert(run_start(views, end as int) == run_start(views, end - 1));
                    end += 1;
                }
                proof {
                    if end < scopes.len() {
                        assert(views[end as int] == scopes[end as int]@);
                        assert(views[end - 1] == scopes[end - 1]@);
                    }
                    lemma_level_edits_end(self@, level as int, end as nat);
                }
                let ghost before = vec_edit.deep_view();
                let edit = VersionEdit::NewFile(
                    (stretch, level),
                    start,
                    Self::sst_meta_by_level(first, self.size_of_disk(), self.len()),
                );
                assert(edit@ == base_edit(self@, level as int, start as int, end as int));
                vec_edit.push(edit);
                assert(vec_edit.deep_view() =~= before.push(edit@));
                assert(before.push(edit@) =~= before_level + level_edits(
                    self@,
                    level as int,
                    end as nat,
                ));
                first = false;
                start = end;
            }
            proof {
                lemma_empty_before_next(self@.levels, level as int);
            }
            level += 1;
        }
        vec_edit
    }

    /// The place in a level of the first table with this gen.
    pub fn index(&self, level: usize, source_gen: i64) -> (r: Option<usize>)
        requires
            level < LEVEL_COUNT,
        ensures
            match r {
                Some(place) => {
                    &&& place < self@.levels[level as int].len()
                    &&& self@.levels[level as int][place as int].gen == source_gen
                    &&& forall|j: int| 0 <= j < place ==> self@.levels[level as int][j].gen != source_gen
                },
                None => forall|j: int|
                    0 <= j < self@.levels[level as int].len() ==> self@.levels[level as int][j].gen
                        != source_gen,
            },
    {
        let scopes = &self.level_slice[level];
        assert(self.level_slice.deep_view()[level as int] == scopes.deep_view());
        let mut place: usize = 0;
        while place < scopes.len()
            invariant
                place <= scopes.len(),
                self@.levels[level as int] == scopes.deep_view(),
                forall|j: int| 0 <= j < place ==> scopes.deep_view()[j].gen != source_gen,
            decreases scopes.len() - place,
        {
            assert(scopes.deep_view()[place as int] == scopes[place as int]@);
            if scopes[place].get_gen() == source_gen {
                return Some(place);
            }
            place += 1;
        }
        None
    }

    /// The place in a level of the table with the gen `option_first`; 0
    /// where no gen is given or the level has no such table.
    pub fn find_index_by_level(&self, option_first: Option<i64>, level: usize) -> (r: usize)
        requires
            level < LEVEL_COUNT,
        ensures
            match option_first {
                Some(gen) => {
                    let scopes = self@.levels[level as int];
                    if exists|j: int| 0 <= j < scopes.len() && scopes[j].gen == gen {
                        &&& r < scopes.len()
                        &&& scopes[r as int].gen == gen
                        &&& forall|j: int| 0 <= j < r ==> scopes[j].gen != gen
                    } else {
                        r == 0
                    }
                },
                None => r == 0,
            },
    {
        match option_first {
            Some(gen) => match self.index(level, gen) {
                Some(place) => place,
                None => 0,
            },
            None => 0,
        }
    }

    /// The place in a level at depth one or more of the one table that may
    /// hold `key`: the last table that starts at or before the key. Where
    /// every table starts after the key, or the level is empty, the place
    /// is 0.
    pub fn query_meet_index(&self, key: &[u8], level: usize) -> (r: usize)
        requires
            1 <= level < LEVEL_COUNT,
        ensures
            r == meet_index(self@.levels[level as int], key@),
            r == 0 || r < self@.levels[level as int].len(),
            r < self@.levels[level as int].len() && key_le(
                self@.levels[level as int][r as int].start,
                key@,
            ) || (r == 0 && forall|j: int|
                0 <= j < self@.levels[level as int].len() ==> !key_le(
                    #[trigger] self@.levels[level as int][j].start,
                    key@,
                )),
            forall|j: int|
                r < j < self@.levels[level as int].len() ==> !key_le(
                    #[trigger] self@.levels[level as int][j].start,
                    key@,
                ),
    {
        proof {
            use_type_invariant(self);
        }
        let scopes = &self.level_slice[level];
        let ghost views = scopes.deep_view();
        assert(self.level_slice.deep_view()[level as int] == views);
        assert(level_ordered(views));
        let mut low: usize = 0;
        let mut high: usize = scopes.len();
        while low < high
            invariant
                low <= high <= scopes.len(),
                views == scopes.deep_view(),
                level_ordered(views),
                forall|j: int| 0 <= j < low ==> key_le(#[trigger] views[j].start, key@),
                forall|j: int| high <= j < views.len() ==> !key_le(#[trigger] views[j].start, key@),
            decreases high - low,
        {
            let middle = low + (high - low) / 2;
            assert(views[middle as int] == scopes[middle as int]@);
            proof {
                lemma_key_le_iff_not_gt(views[middle as int].start, key@);
            }
            match key_order(scopes[middle].start(), key) {
                KeyOrder::Greater => {
                    proof {
                        assert forall|j: int| middle <= j < views.len() implies !key_le(
                            #[trigger] views[j].start,
                            key@,
                        ) by {
                            if middle < j {
                                lemma_ordered_level_is_disjoint(views, middle as int, j);
                                if key_le(views[j].start, key@) {
                                    lemma_key_le_transitive(
                                        views[middle as int].start,
                                        views[j].start,
                                        key@,
                                    );
                                }
                            }
                        }
                    }
                    high = middle;
                },
                _ => {
                    proof {
                        assert forall|j: int| 0 <= j < middle + 1 implies key_le(
                            #[trigger] views[j].start,
                            key@,
                        ) by {
                            if j < middle {
                                lemma_ordered_level_is_disjoint(views, j, middle as int);
                                lemma_key_le_transitive(
                                    views[j].start,
                                    views[middle as int].start,
                                    key@,
                                );
                            }
                        }
                    }
                    low = middle + 1;
                },
            }
        }
        if low == 0 {
            0
        } else {
            proof {
                lemma_meet_index_is(views, key@, low - 1);
            }
            low - 1
        }
    }

    /// Whether a level holds at least as many tables as its capacity,
    /// `major_threshold_with_sst_size * level_sst_magnification ^ level`.
    pub fn is_threshold_exceeded_major(&self, config: &Config, level: usize) -> (r: bool)
        requires
            level < LEVEL_COUNT,
        ensures
            r == (self@.levels[level as int].len() >= level_capacity(
                config@.options,
                level as nat,
            )),
    {
        config.options().is_level_full(level, self.level_len(level))
    }

    /// The table at a place of a level, if there is such a place and the
    /// table is loaded.
    pub fn table<'a>(&self, table_loader: &'a TableLoader, level: usize, offset: usize) -> (r:
        Option<&'a Table>)
        requires
            level < LEVEL_COUNT,
        ensures
            match r {
                Some(table) => {
                    &&& offset < self@.levels[level as int].len()
                    &&& table_of(table_loader@, self@.levels[level as int][offset as int].gen)
                        == Some(table@)
                },
                None => offset >= self@.levels[level as int].len() || table_of(
                    table_loader@,
                    self@.levels[level as int][offset as int].gen,
                ) is None,
            },
    {
        let scopes = self.level_scopes(level);
        if offset < scopes.len() {
            assert(scopes.deep_view()[offset as int] == scopes[offset as int]@);
            table_loader.get(scopes[offset].get_gen())
        } else {
            None
        }
    }

    /// The loaded tables of level 0, oldest first.
    pub fn tables_by_level_0<'a>(&self, table_loader: &'a TableLoader) -> (r: Vec<&'a Table>)
        ensures
            r.deep_view() == tables_of(
                picked(self@.levels[0], table_loader@, None),
                table_loader@,
            ),
    {
        let scopes = self.level_scopes(LEVEL_0);
        let (tables, _) = pick_loaded(scopes, scopes.len(), table_loader, None);
        assert(scopes.deep_view().take(scopes.len() as int) =~= scopes.deep_view());
        tables
    }

    /// The first `size` tables of a level, as far as they are loaded, with
    /// their scopes; `None` where the level is empty.
    pub fn first_tables<'a>(&self, table_loader: &'a TableLoader, level: usize, size: usize) -> (r:
        Option<(Vec<&'a Table>, Vec<Scope>)>)
        requires
            level < LEVEL_COUNT,
        ensures
            match r {
                Some((tables, scopes)) => {
                    let level_scopes = self@.levels[level as int];
                    let first = if size <= level_scopes.len() {
                        size as int
                    } else {
                        level_scopes.len() as int
                    };
                    &&& level_scopes.len() > 0
                    &&& scopes.deep_view() == picked(level_scopes.take(first), table_loader@, None)
                    &&& tables.deep_view() == tables_of(scopes.deep_view(), table_loader@)
                },
                None => self@.levels[level as int].len() == 0,
            },
    {
        let scopes = self.level_scopes(level);
        if scopes.len() == 0 {
            return None;
        }
        let first = if size <= scopes.len() {
            size
        } else {
            scopes.len()
        };
        Some(pick_loaded(scopes, first, table_loader, None))
    }

    /// The loaded tables of a level whose scopes overlap `target_scope`,
    /// with their scopes.
    pub fn tables_by_scopes<'a>(
        &self,
        table_loader: &'a TableLoader,
        level: usize,
        target_scope: &Scope,
    ) -> (r: (Vec<&'a Table>, Vec<Scope>))
        requires
            level < LEVEL_COUNT,
        ensures
            r.1.deep_view() == picked(
                self@.levels[level as int],
                table_loader@,
                Some(target_scope@),
            ),
            r.0.deep_view() == tables_of(r.1.deep_view(), table_loader@),
    {
        let scopes = self.level_scopes(level);
        assert(scopes.deep_view().take(scopes.len() as int) =~= scopes.deep_view());
        pick_loaded(scopes, scopes.len(), table_loader, Some(target_scope))
    }

    /// The scopes of a level as they stand in memory.
    pub closed spec fn scopes(&self, level: int) -> Seq<Scope> {
        self.level_slice@[level]@
    }

    /// The loaded tables of a level whose scopes pass the test `fn_meet`,
    /// in the order of the level. The test is put to every scope of the
    /// level, in order.
    pub fn tables_by_meet_scope<'a, F>(
        &self,
        table_loader: &'a TableLoader,
        level: usize,
        fn_meet: F,
    ) -> (r: Vec<&'a Table>) where F: Fn(&Scope) -> bool
        requires
            level < LEVEL_COUNT,
            forall|scope: &Scope| call_requires(fn_meet, (scope,)),
        ensures
            self.scopes(level as int).len() == self@.levels[level as int].len(),
            forall|i: int|
                0 <= i < self.scopes(level as int).len() ==> (#[trigger] self.scopes(
                    level as int,
                )[i])@ == self@.levels[level as int][i],
            exists|marks: Seq<bool>|
                {
                    &&& #[trigger] answers_of(fn_meet, self.scopes(level as int), marks)
                    &&& r.deep_view() == tables_of(
                        chosen(self@.levels[level as int], marks, table_loader@),
                        table_loader@,
                    )
                },
    {
        let scopes = &self.level_slice[level];
        let ghost views = scopes.deep_view();
        let ghost tables = table_loader@;
        assert(self.level_slice.deep_view()[level as int] == views);
        assert(scopes@ == self.scopes(level as int));
        assert forall|i: int| 0 <= i < scopes@.len() implies (#[trigger] scopes@[i])@ == views[i] by {}
        let ghost mut marks: Seq<bool> = Seq::empty();
        let mut found: Vec<&'a Table> = Vec::new();
        let mut i: usize = 0;
        proof {
            assert(views.take(0) =~= Seq::<ScopeView>::empty());
            assert(found.deep_view() =~= tables_of(chosen(views.take(0), marks, tables), tables));
        }
        while i < scopes.len()
            invariant
                i <= scopes.len(),
                views == scopes.deep_view(),
                tables == table_loader@,
                forall|scope: &Scope| call_requires(fn_meet, (scope,)),
                marks.len() == i,
                forall|k: int|
                    0 <= k < i ==> call_ensures(fn_meet, (&scopes@[k],), #[trigger] marks[k]),
                found.deep_view() == tables_of(chosen(views.take(i as int), marks, tables), tables),
            decreases scopes.len() - i,
        {
            let scope = &scopes[i];
            let meets = fn_meet(scope);
            let ghost marks_before = marks;
            let ghost chosen_before = chosen(views.take(i as int), marks, tables);
            proof {
                marks = marks.push(meets);
                assert(marks.drop_last() =~= marks_before);
                assert(views.take(i + 1).drop_last() =~= views.take(i as int));
                assert(views.take(i + 1).last() == scope@);
            }
            if meets {
                if let Some(table) = table_loader.get(scope.get_gen()) {
                    let ghost before = found.deep_view();
                    found.push(table);
                    proof {
                        assert(found.deep_view() =~= before.push(table@));
                        assert(tables_of(chosen_before.push(scope@), tables) =~= tables_of(
                            chosen_before,
                            tables,
                        ).push(table@));
                    }
                }
            }
            i += 1;
        }
        proof {
            assert(views.take(i as int) =~= views);
            assert(views == self@.levels[level as int]);
            assert(answers_of(fn_meet, self.scopes(level as int), marks));
            assert(found.deep_view() == tables_of(
                chosen(self@.levels[level as int], marks, table_loader@),
                table_loader@,
            ));
        }
        found
    }

    /// The message that tells the cleaner that this version is no longer
    /// in use.
    pub fn retire(&self) -> (r: CleanTag)
        ensures
            r == CleanTag::Clean(self@.version_num),
    {
        CleanTag::Clean(self.version_num)
    }

    /// The value that the tables of this version hold for a key. Level 0 is
    /// read from its newest table to its oldest, each table only if its
    /// scope holds the key; then the levels below are read in order, in each
    /// the one table that may hold the key. The first value found is
    /// returned; a removal is found as the empty value. A table that is not
    /// loaded is passed over.
    pub fn query(&self, table_loader: &TableLoader, key: &[u8]) -> (r: Option<Vec<u8>>)
        ensures
            match r {
                Some(value) => query_tables(self@.levels, table_loader@, key@) == Some(value@),
                None => query_tables(self@.levels, table_loader@, key@) is None,
            },
    {
        let level_0 = self.level_scopes(LEVEL_0);
        let ghost scopes_0 = level_0.deep_view();
        let ghost tables = table_loader@;
        let mut left: usize = level_0.len();
        assert(scopes_0.take(left as int) =~= scopes_0);
        while left > 0
            invariant
                left <= level_0.len(),
                scopes_0 == level_0.deep_view(),
                scopes_0 == self@.levels[0],
                tables == table_loader@,
                query_level_0(scopes_0, tables, key@) == query_level_0(
                    scopes_0.take(left as int),
                    tables,
                    key@,
                ),
            decreases left,
        {
            left -= 1;
            let scope = &level_0[left];
            proof {
                assert(scopes_0.take(left + 1).drop_last() =~= scopes_0.take(left as int));
                assert(scopes_0.take(left + 1).last() == scope@);
            }
            if scope.meet_by_key(key) {
                if let Some(ss_table) = table_loader.get(scope.get_gen()) {
                    if let Some(value) = ss_table.query(key) {
                        return Some(value);
                    }
                }
            }
        }
        self.query_from(table_loader, key, 1)
    }

    /// The value that the levels from `depth` on hold for a key: in each
    /// level that is not empty the one table that may hold the key is read,
    /// and the first value found is returned.
    pub(crate) fn query_from(&self, table_loader: &TableLoader, key: &[u8], depth: usize) -> (r: Option<
        Vec<u8>,
    >)
        requires
            1 <= depth <= LEVEL_COUNT,
        ensures
            match r {
                Some(value) => query_deeper(self@.levels, table_loader@, key@, depth as int)
                    == Some(value@),
                None => query_deeper(self@.levels, table_loader@, key@, depth as int) is None,
            },
    {
        let ghost tables = table_loader@;
        let mut level: usize = depth;
        while level < LEVEL_COUNT
            invariant
                1 <= depth <= level <= LEVEL_COUNT,
                tables == table_loader@,
                query_deeper(self@.levels, tables, key@, depth as int) == query_deeper(
                    self@.levels,
                    tables,
                    key@,
                    level as int,
                ),
            decreases LEVEL_COUNT - level,
        {
            let scopes = self.level_scopes(level);
            if scopes.len() > 0 {
                let offset = self.query_meet_index(key, level);
                assert(scopes.deep_view()[offset as int] == scopes[offset as int]@);
                if let Some(ss_table) = table_loader.get(scopes[offset].get_gen()) {
                    if let Some(value) = ss_table.query(key) {
                        return Some(value);
                    }
                }
            }
            level += 1;
        }
        None
    }
}

impl Clone for Version {
    fn clone(&self) -> (r: Self)
        ensures
            r@ == self@,
            levels_ordered(r@.levels),
    {
        proof {
            use_type_invariant(self);
        }
        Version {
            version_num: self.version_num,
            level_slice: clone_levels(&self.level_slice),
            meta_data: self.meta_data,
        }
    }
}

/// Of the first `upto` scopes, those whose table is loaded and, where a
/// target is given, whose range overlaps that of the target; with their
/// tables.
fn pick_loaded<'a>(
    scopes: &Vec<Scope>,
    upto: usize,
    table_loader: &'a TableLoader,
    target: Option<&Scope>,
) -> (r: (Vec<&'a Table>, Vec<Scope>))
    requires
        upto <= scopes.len(),
    ensures
        r.1.deep_view() == picked(
            scopes.deep_view().take(upto as int),
            table_loader@,
            match target {
                Some(other) => Some(other@),
                None => None,
            },
        ),
        r.0.deep_view() == tables_of(r.1.deep_view(), table_loader@),
{
    let ghost views = scopes.deep_view();
    let ghost tables = table_loader@;
    let ghost aim: Option<ScopeView> = match target {
        Some(other) => Some(other@),
        None => None,
    };
    let mut found_tables: Vec<&'a Table> = Vec::new();
    let mut found_scopes: Vec<Scope> = Vec::new();
    let mut i: usize = 0;
    proof {
        reveal(Seq::filter);
        assert(views.take(0) =~= Seq::<ScopeView>::empty());
        assert(found_scopes.deep_view() =~= Seq::<ScopeView>::empty());
        assert(found_tables.deep_view() =~= tables_of(found_scopes.deep_view(), tables));
    }
    while i < upto
        invariant
            i <= upto <= scopes.len(),
            views == scopes.deep_view(),
            tables == table_loader@,
            aim == match target {
                Some(other) => Some(other@),
                None => None,
            },
            found_scopes.deep_view() == picked(views.take(i as int), tables, aim),
            found_tables.deep_view() == tables_of(found_scopes.deep_view(), tables),
        decreases upto - i,
    {
        let scope = &scopes[i];
        proof {
            assert(views.take(i + 1) =~= views.take(i as int).push(scope@));
            views.take(i as int).lemma_filter_push(scope@, pick_test(tables, aim));
        }
        let meets = match target {
            Some(other) => scope.meet(other),
            None => true,
        };
        if meets {
            if let Some(table) = table_loader.get(scope.get_gen()) {
                let ghost scopes_before = found_scopes.deep_view();
                let ghost tables_before = found_tables.deep_view();
                found_scopes.push(scope.clone());
                found_tables.push(table);
                proof {
                    assert(found_scopes.deep_view() =~= scopes_before.push(scope@));
                    assert(found_tables.deep_view() =~= tables_before.push(table@));
                    assert(tables_of(scopes_before.push(scope@), tables) =~= tables_of(
                        scopes_before,
                        tables,
                    ).push(table@));
                }
            }
        }
        i += 1;
    }
    (found_tables, found_scopes)
}

} // verus!
