//! The choice of tables for a major compaction, which merges tables of one
//! level into the next.

use vstd::prelude::*;
use crate::command::{CommandData, CommandView};
use crate::keys::{key_lt, key_order, KeyOrder};
use crate::run::{
    entry_at, is_run, lemma_run_entry_found, lemma_run_without_last, lemma_with_entry, put,
    with_entry, Entry, EntryView,
};
use crate::scope::{fusion_of, Scope, ScopeView};
use crate::table::{table_of, TableLoader, TableView};
use crate::totals::level_totals;
use crate::version::edit::{VersionEdit, VersionEditView};
use crate::version::meta::TableMeta;
use crate::version::model::{query_deeper, LEVEL_COUNT};
use crate::version::Version;

verus! {

/// The tables that a major compaction merges, and where its result goes.
#[derive(Debug)]
pub struct MajorCompaction {
    /// The level that is compacted.
    pub level: usize,
    /// The scopes of the tables of that level that go into the merge.
    pub upper: Vec<Scope>,
    /// The scopes of the tables of the next level that go into the merge.
    pub lower: Vec<Scope>,
    /// The place in the next level where the merged tables go.
    pub index: usize,
}

/// The choice as a mathematical value.
pub struct MajorView {
    pub level: usize,
    pub upper: Seq<ScopeView>,
    pub lower: Seq<ScopeView>,
    pub index: usize,
}

impl View for MajorCompaction {
    type V = MajorView;

    open spec fn view(&self) -> MajorView {
        MajorView {
            level: self.level,
            upper: self.upper.deep_view(),
            lower: self.lower.deep_view(),
            index: self.index,
        }
    }
}

/// The test that a scope passes when it overlaps the target.
pub open spec fn meets_target(target: ScopeView) -> spec_fn(ScopeView) -> bool {
    |scope: ScopeView| scope.meets(target)
}

/// The scopes of a level that overlap the target, in their order.
pub open spec fn meeting(level: Seq<ScopeView>, target: ScopeView) -> Seq<ScopeView> {
    level.filter(meets_target(target))
}

/// The scopes of a level that are among its first `first` or overlap the
/// span, in their order.
pub open spec fn widened(level: Seq<ScopeView>, first: int, span: ScopeView) -> Seq<ScopeView>
    decreases level.len(),
{
    if level.len() == 0 {
        level
    } else {
        let rest = widened(level.drop_last(), first, span);
        if level.len() - 1 < first || level.last().meets(span) {
            rest.push(level.last())
        } else {
            rest
        }
    }
}

/// How many scopes at the front of a level end before the key: the place
/// in the level where a table that starts at the key goes.
pub open spec fn slot_for(level: Seq<ScopeView>, key: Seq<u8>) -> int
    decreases level.len(),
{
    if level.len() == 0 || !key_lt(level[0].end, key) {
        0
    } else {
        1 + slot_for(level.skip(1), key)
    }
}

/// The choice for a major compaction of `level`, which picks `select`
/// tables. The first `select` tables of the level are picked. From the next
/// level every table goes in that overlaps the range which the picks
/// cover. At level 0, whose tables may overlap each other, every further
/// table goes in that overlaps the range which those tables of the next
/// level cover. The result goes where the picks' range begins in the next
/// level. There is nothing to compact at the last level, in an empty level,
/// or with no table to pick.
pub open spec fn major_plan(levels: Seq<Seq<ScopeView>>, select: usize, level: usize) -> Option<
    MajorView,
> {
    if level + 1 >= LEVEL_COUNT || levels[level as int].len() == 0 || select == 0 {
        None
    } else {
        let scopes = levels[level as int];
        let first = if select <= scopes.len() {
            select as int
        } else {
            scopes.len() as int
        };
        let picks = scopes.take(first);
        let target = fusion_of(picks);
        let lower = meeting(levels[level + 1], target);
        let upper = if level == 0 && lower.len() > 0 {
            widened(scopes, first, fusion_of(lower))
        } else {
            picks
        };
        Some(
            MajorView {
                level,
                upper,
                lower,
                index: slot_for(levels[level + 1], target.start) as usize,
            },
        )
    }
}

/// A copy of the first `first` scopes.
fn first_scopes(scopes: &Vec<Scope>, first: usize) -> (r: Vec<Scope>)
    requires
        first <= scopes.len(),
    ensures
        r.deep_view() == scopes.deep_view().take(first as int),
{
    let ghost views = scopes.deep_view();
    let mut picks: Vec<Scope> = Vec::new();
    let mut i: usize = 0;
    assert(picks.deep_view() =~= views.take(0));
    while i < first
        invariant
            i <= first <= scopes.len(),
            views == scopes.deep_view(),
            picks.deep_view() == views.take(i as int),
        decreases first - i,
    {
        let ghost before = picks.deep_view();
        picks.push(scopes[i].clone());
        assert(picks.deep_view() =~= before.push(scopes[i as int]@));
        assert(views.take(i + 1) =~= views.take(i as int).push(views[i as int]));
        i += 1;
    }
    picks
}

/// A copy of the scopes that overlap the target.
fn scopes_meeting(scopes: &Vec<Scope>, target: &Scope) -> (r: Vec<Scope>)
    ensures
        r.deep_view() == meeting(scopes.deep_view(), target@),
{
    let ghost views = scopes.deep_view();
    let mut found: Vec<Scope> = Vec::new();
    let mut i: usize = 0;
    proof {
        reveal(Seq::filter);
        assert(views.take(0) =~= Seq::<ScopeView>::empty());
        assert(found.deep_view() =~= Seq::<ScopeView>::empty());
    }
    while i < scopes.len()
        invariant
            i <= scopes.len(),
            views == scopes.deep_view(),
            found.deep_view() == meeting(views.take(i as int), target@),
        decreases scopes.len() - i,
    {
        let scope = &scopes[i];
        proof {
            assert(views.take(i + 1) =~= views.take(i as int).push(scope@));
            views.take(i as int).lemma_filter_push(scope@, meets_target(target@));
        }
        if scope.meet(target) {
            let ghost before = found.deep_view();
            found.push(scope.clone());
            assert(found.deep_view() =~= before.push(scope@));
        }
        i += 1;
    }
    assert(views.take(i as int) =~= views);
    found
}

/// A copy of the scopes that are among the first `first` or overlap the
/// span.
fn scopes_widened(scopes: &Vec<Scope>, first: usize, span: &Scope) -> (r: Vec<Scope>)
    ensures
        r.deep_view() == widened(scopes.deep_view(), first as int, span@),
{
    let ghost views = scopes.deep_view();
    let mut found: Vec<Scope> = Vec::new();
    let mut i: usize = 0;
    assert(views.take(0) =~= Seq::<ScopeView>::empty());
    assert(found.deep_view() =~= Seq::<ScopeView>::empty());
    while i < scopes.len()
        invariant
            i <= scopes.len(),
            views == scopes.deep_view(),
            found.deep_view() == widened(views.take(i as int), first as int, span@),
        decreases scopes.len() - i,
    {
        let scope = &scopes[i];
        proof {
            assert(views.take(i + 1).drop_last() =~= views.take(i as int));
            assert(views.take(i + 1).last() == scope@);
        }
        if i < first || scope.meet(span) {
            let ghost before = found.deep_view();
            found.push(scope.clone());
            assert(found.deep_view() =~= before.push(scope@));
        }
        i += 1;
    }
    assert(views.take(i as int) =~= views);
    found
}

/// How many scopes at the front of the level end before the key.
fn slot_of(scopes: &Vec<Scope>, key: &[u8]) -> (r: usize)
    ensures
        r == slot_for(scopes.deep_view(), key@),
        r <= scopes.len(),
{
    let ghost views = scopes.deep_view();
    let mut i: usize = 0;
    assert(views.skip(0) =~= views);
    while i < scopes.len()
        invariant
            i <= scopes.len(),
            views == scopes.deep_view(),
            slot_for(views, key@) == i + slot_for(views.skip(i as int), key@),
        decreases scopes.len() - i,
    {
        proof {
            assert(views.skip(i as int)[0] == scopes[i as int]@);
            assert(views.skip(i as int).skip(1) =~= views.skip(i + 1));
        }
        match key_order(scopes[i].end(), key) {
            KeyOrder::Less => {},
            _ => {
                return i;
            },
        }
        i += 1;
    }
    i
}

/// Chooses the tables for a major compaction of `level` that picks `select`
/// tables.
pub fn plan_major(version: &Version, select: usize, level: usize) -> (r: Option<MajorCompaction>)
    ensures
        match r {
            Some(plan) => major_plan(version@.levels, select, level) == Some(plan@),
            None => major_plan(version@.levels, select, level) is None,
        },
{
    if level >= LEVEL_COUNT - 1 || select == 0 {
        return None;
    }
    let scopes = version.level_scopes(level);
    if scopes.len() == 0 {
        return None;
    }
    let first = if select <= scopes.len() {
        select
    } else {
        scopes.len()
    };
    let picks = first_scopes(scopes, first);
    let target = match Scope::fusion(&picks) {
        Some(target) => target,
        None => {
            return None;
        },
    };
    let below = version.level_scopes(level + 1);
    let lower = scopes_meeting(below, &target);
    let index = slot_of(below, target.start());
    let upper = if level == 0 && lower.len() > 0 {
        match Scope::fusion(&lower) {
            Some(span) => scopes_widened(scopes, first, &span),
            None => picks,
        }
    } else {
        picks
    };
    Some(MajorCompaction { level, upper, lower, index })
}

/// The run `base` with the entries of `run` put in, in order: where both
/// hold a key, the entry of `run` stays.
pub open spec fn poured(base: Seq<EntryView>, run: Seq<EntryView>) -> Seq<EntryView>
    decreases run.len(),
{
    if run.len() == 0 {
        base
    } else {
        with_entry(poured(base, run.drop_last()), run.last())
    }
}

/// The runs merged into one: where several hold a key, the entry of the
/// last of them stays. That is the entry with the highest sequence id
/// where the order of the runs is the order of their writes; a reader
/// goes by the order of the tables, and so does the merge.
pub open spec fn merged(runs: Seq<Seq<EntryView>>) -> Seq<EntryView>
    decreases runs.len(),
{
    if runs.len() == 0 {
        Seq::empty()
    } else {
        poured(merged(runs.drop_last()), runs.last())
    }
}

/// The entries of the table that a scope names; none where the table is
/// not loaded.
pub open spec fn run_of(scope: ScopeView, tables: Seq<TableView>) -> Seq<EntryView> {
    match table_of(tables, scope.gen) {
        Some(table) => table.entries,
        None => Seq::empty(),
    }
}

/// The runs of the tables that the scopes name, in the order of the
/// scopes.
pub open spec fn runs_of(scopes: Seq<ScopeView>, tables: Seq<TableView>) -> Seq<Seq<EntryView>> {
    scopes.map_values(|scope: ScopeView| run_of(scope, tables))
}

/// The runs that a major compaction merges, those that are read last
/// first: the tables of the next level, then the tables of the level
/// itself in their order, so that an entry of the level stays over one of
/// the next level, and at level 0 an entry of a newer table over one of an
/// older table.
pub open spec fn major_inputs(plan: MajorView, tables: Seq<TableView>) -> Seq<Seq<EntryView>> {
    runs_of(plan.lower, tables) + runs_of(plan.upper, tables)
}

/// Whether an entry need not be kept when it is merged into the level
/// above `below`: it is a removal, and no level from `below` on holds its
/// key.
pub open spec fn is_spent(
    entry: EntryView,
    levels: Seq<Seq<ScopeView>>,
    tables: Seq<TableView>,
    below: int,
) -> bool {
    entry.cmd is Remove && query_deeper(levels, tables, entry.key(), below) is None
}

/// The test that an entry passes when it has to be kept.
pub open spec fn is_kept(levels: Seq<Seq<ScopeView>>, tables: Seq<TableView>, below: int) -> spec_fn(
    EntryView,
) -> bool {
    |entry: EntryView| !is_spent(entry, levels, tables, below)
}

/// The bytes that an entry counts when tables are cut to size: those of
/// its command as a payload, and eight for its sequence id.
pub open spec fn entry_size(entry: EntryView) -> int {
    match entry.cmd {
        CommandView::Put { key, value } => 13 + key.len() as int + value.len() as int,
        CommandView::Remove { key } => 13 + key.len() as int,
    }
}

/// The state of cutting a run into tables: the tables that are full, the
/// table that is being filled, and its size.
pub struct Cutting {
    pub full: Seq<Seq<EntryView>>,
    pub open: Seq<EntryView>,
    pub size: int,
}

/// The state after the entries were dealt out: each entry goes to the
/// table that is being filled, and that table is full as soon as its size
/// has reached the limit.
pub open spec fn cutting(run: Seq<EntryView>, limit: usize) -> Cutting
    decreases run.len(),
{
    if run.len() == 0 {
        Cutting { full: Seq::empty(), open: Seq::empty(), size: 0 }
    } else {
        let before = cutting(run.drop_last(), limit);
        let open = before.open.push(run.last());
        let size = before.size + entry_size(run.last());
        if size >= limit {
            Cutting { full: before.full.push(open), open: Seq::empty(), size: 0 }
        } else {
            Cutting { full: before.full, open, size }
        }
    }
}

/// The run cut into tables of about `limit` bytes: a table is closed as
/// soon as it has reached the limit, and what is left at the end makes the
/// last table.
pub open spec fn cut(run: Seq<EntryView>, limit: usize) -> Seq<Seq<EntryView>> {
    let state = cutting(run, limit);
    if state.open.len() > 0 {
        state.full.push(state.open)
    } else {
        state.full
    }
}

/// What a major compaction writes: the tables of its choice are merged,
/// removals that hide nothing below the next level are left out, and the
/// rest is cut into tables of about `limit` bytes.
pub open spec fn major_output(
    levels: Seq<Seq<ScopeView>>,
    tables: Seq<TableView>,
    plan: MajorView,
    limit: usize,
) -> Seq<Seq<EntryView>> {
    cut(
        merged(major_inputs(plan, tables)).filter(is_kept(levels, tables, plan.level + 2)),
        limit,
    )
}

/// Where a run is poured into a run, the result finds under a key what the
/// run poured in finds, and else what the other run found.
pub proof fn lemma_poured_finds(base: Seq<EntryView>, run: Seq<EntryView>, key: Seq<u8>)
    requires
        is_run(base),
        is_run(run),
    ensures
        is_run(poured(base, run)),
        entry_at(poured(base, run), key) == match entry_at(run, key) {
            Some(entry) => Some(entry),
            None => entry_at(base, key),
        },
    decreases run.len(),
{
    if run.len() > 0 {
        lemma_run_without_last(run, key);
        lemma_poured_finds(base, run.drop_last(), key);
        lemma_with_entry(poured(base, run.drop_last()), run.last());
        lemma_run_entry_found(run, run.len() - 1);
    }
}

/// What the last of the runs that holds the key finds under it.
pub open spec fn latest_entry(runs: Seq<Seq<EntryView>>, key: Seq<u8>) -> Option<EntryView>
    decreases runs.len(),
{
    if runs.len() == 0 {
        None
    } else {
        match entry_at(runs.last(), key) {
            Some(entry) => Some(entry),
            None => latest_entry(runs.drop_last(), key),
        }
    }
}

/// A merge loses no key and keeps the latest: what the merged run finds
/// under a key is what the last of the runs that holds the key finds.
pub proof fn lemma_merged_finds_latest(runs: Seq<Seq<EntryView>>, key: Seq<u8>)
    requires
        forall|i: int| 0 <= i < runs.len() ==> is_run(#[trigger] runs[i]),
    ensures
        is_run(merged(runs)),
        entry_at(merged(runs), key) == latest_entry(runs, key),
    decreases runs.len(),
{
    if runs.len() > 0 {
        let front = runs.drop_last();
        assert forall|i: int| 0 <= i < front.len() implies is_run(#[trigger] front[i]) by {
            assert(front[i] == runs[i]);
        }
        lemma_merged_finds_latest(front, key);
        assert(is_run(runs[runs.len() - 1]));
        lemma_poured_finds(merged(front), runs.last(), key);
    }
}

/// Whether the order of the runs is the order of their writes under a key:
/// of two runs that hold the key, the later one holds it under a sequence
/// id that is not lower.
pub open spec fn seqs_follow(runs: Seq<Seq<EntryView>>, key: Seq<u8>) -> bool {
    forall|i: int, j: int|
        0 <= i < j < runs.len() && entry_at(#[trigger] runs[i], key) is Some && entry_at(
            #[trigger] runs[j],
            key,
        ) is Some ==> entry_at(runs[i], key).unwrap().seq <= entry_at(runs[j], key).unwrap().seq
}

/// Where the order of the runs is the order of their writes, a merge keeps
/// under each key the entry with the highest sequence id: no run holds the
/// key under a higher one than the merged run does. Of entries with the
/// same sequence id that of the later run stays.
pub proof fn lemma_merged_keeps_highest_seq(runs: Seq<Seq<EntryView>>, key: Seq<u8>, i: int)
    requires
        forall|k: int| 0 <= k < runs.len() ==> is_run(#[trigger] runs[k]),
        seqs_follow(runs, key),
        0 <= i < runs.len(),
        entry_at(runs[i], key) is Some,
    ensures
        entry_at(merged(runs), key) is Some,
        entry_at(runs[i], key).unwrap().seq <= entry_at(merged(runs), key).unwrap().seq,
    decreases runs.len(),
{
    lemma_merged_finds_latest(runs, key);
    let front = runs.drop_last();
    let at = runs.len() - 1;
    if entry_at(runs.last(), key) is Some {
        if i < at {
            assert(entry_at(runs[i], key).unwrap().seq <= entry_at(runs[at], key).unwrap().seq);
        }
    } else {
        assert forall|k: int| 0 <= k < front.len() implies is_run(#[trigger] front[k]) by {
            assert(front[k] == runs[k]);
        }
        assert forall|a: int, b: int|
            0 <= a < b < front.len() && entry_at(#[trigger] front[a], key) is Some && entry_at(
                #[trigger] front[b],
                key,
            ) is Some implies entry_at(front[a], key).unwrap().seq <= entry_at(
            front[b],
            key,
        ).unwrap().seq by {
            assert(front[a] == runs[a]);
            assert(front[b] == runs[b]);
        }
        assert(front[i] == runs[i]);
        lemma_merged_finds_latest(front, key);
        lemma_merged_keeps_highest_seq(front, key, i);
    }
}

/// Cutting a run loses nothing and changes no order: the tables, one after
/// the other, are the run, and none of them is empty.
pub proof fn lemma_cut_keeps_all(run: Seq<EntryView>, limit: usize)
    ensures
        cut(run, limit).flatten_alt() == run,
        forall|i: int| 0 <= i < cut(run, limit).len() ==> (#[trigger] cut(run, limit)[i]).len() > 0,
{
    lemma_cutting_keeps_all(run, limit);
    let state = cutting(run, limit);
    if state.open.len() > 0 {
        assert(state.full.push(state.open).drop_last() =~= state.full);
    } else {
        assert(state.full.flatten_alt() + state.open =~= state.full.flatten_alt());
    }
}

proof fn lemma_cutting_keeps_all(run: Seq<EntryView>, limit: usize)
    ensures
        cutting(run, limit).full.flatten_alt() + cutting(run, limit).open == run,
        forall|i: int|
            0 <= i < cutting(run, limit).full.len() ==> (#[trigger] cutting(run, limit).full[i]).len()
                > 0,
    decreases run.len(),
{
    if run.len() == 0 {
        assert(cutting(run, limit).full.flatten_alt() + cutting(run, limit).open =~= run);
    } else {
        lemma_cutting_keeps_all(run.drop_last(), limit);
        let before = cutting(run.drop_last(), limit);
        let open = before.open.push(run.last());
        let after = cutting(run, limit);
        if before.size + entry_size(run.last()) >= limit {
            assert(before.full.push(open).drop_last() =~= before.full);
            assert(after.full.flatten_alt() =~= before.full.flatten_alt() + open);
            assert(before.full.flatten_alt() + open =~= (before.full.flatten_alt()
                + before.open).push(run.last()));
            assert(run.drop_last().push(run.last()) =~= run);
            assert(after.full.flatten_alt() + after.open =~= run);
            assert forall|i: int| 0 <= i < after.full.len() implies (#[trigger] after.full[i]).len()
                > 0 by {
                if i < before.full.len() {
                    assert(after.full[i] == before.full[i]);
                }
            }
        } else {
            assert(after.full.flatten_alt() + after.open =~= (before.full.flatten_alt()
                + before.open).push(run.last()));
            assert(run.drop_last().push(run.last()) =~= run);
            assert((before.full.flatten_alt() + before.open).push(run.last()) =~= run);
        }
    }
}

/// Puts the entries of the tables that the scopes name into the run, in
/// order. A scope whose table is not loaded adds nothing.
fn pour_tables(run: &mut Vec<Entry>, scopes: &Vec<Scope>, table_loader: &TableLoader)
    requires
        is_run(old(run).deep_view()),
    ensures
        is_run(final(run).deep_view()),
        final(run).deep_view() == merged_onto(
            old(run).deep_view(),
            runs_of(scopes.deep_view(), table_loader@),
        ),
{
    let ghost start = run.deep_view();
    let ghost tables = table_loader@;
    let ghost views = scopes.deep_view();
    let mut i: usize = 0;
    assert(runs_of(views.take(0), tables) =~= Seq::<Seq<EntryView>>::empty());
    while i < scopes.len()
        invariant
            i <= scopes.len(),
            views == scopes.deep_view(),
            tables == table_loader@,
            is_run(run.deep_view()),
            run.deep_view() == merged_onto(start, runs_of(views.take(i as int), tables)),
        decreases scopes.len() - i,
    {
        assert(views[i as int] == scopes[i as int]@);
        let ghost before = run.deep_view();
        proof {
            assert(views.take(i + 1).drop_last() =~= views.take(i as int));
            assert(runs_of(views.take(i + 1), tables).drop_last() =~= runs_of(
                views.take(i as int),
                tables,
            ));
            assert(runs_of(views.take(i + 1), tables).last() == run_of(views[i as int], tables));
        }
        match table_loader.get(scopes[i].get_gen()) {
            Some(table) => {
                let entries = table.entries();
                let ghost source = entries.deep_view();
                let mut k: usize = 0;
                assert(source.take(0) =~= Seq::<EntryView>::empty());
                while k < entries.len()
                    invariant
                        k <= entries.len(),
                        source == entries.deep_view(),
                        is_run(run.deep_view()),
                        run.deep_view() == poured(before, source.take(k as int)),
                    decreases entries.len() - k,
                {
                    proof {
                        assert(source.take(k + 1).drop_last() =~= source.take(k as int));
                        assert(source.take(k + 1).last() == entries[k as int]@);
                    }
                    put(run, entries[k].clone());
                    k += 1;
                }
                assert(source.take(k as int) =~= source);
            },
            None => {},
        }
        i += 1;
    }
    assert(views.take(i as int) =~= views);
}

/// The runs poured into the run `base`, one after the other.
pub open spec fn merged_onto(base: Seq<EntryView>, runs: Seq<Seq<EntryView>>) -> Seq<EntryView>
    decreases runs.len(),
{
    if runs.len() == 0 {
        base
    } else {
        poured(merged_onto(base, runs.drop_last()), runs.last())
    }
}

/// Merging runs is pouring them onto the empty run, and pouring more runs
/// onto the result is merging all of them.
pub proof fn lemma_merged_onto(first: Seq<Seq<EntryView>>, second: Seq<Seq<EntryView>>)
    ensures
        merged_onto(Seq::empty(), first) == merged(first),
        merged_onto(merged(first), second) == merged(first + second),
    decreases first.len() + second.len(),
{
    if first.len() > 0 {
        lemma_merged_onto(first.drop_last(), Seq::empty());
    }
    if second.len() == 0 {
        assert(first + second =~= first);
    } else {
        lemma_merged_onto(first, second.drop_last());
        assert((first + second).drop_last() =~= first + second.drop_last());
        assert((first + second).last() == second.last());
    }
}

/// The bytes that an entry counts when tables are cut to size; none where
/// the number does not fit.
fn size_of(entry: &Entry) -> (r: Option<usize>)
    ensures
        match r {
            Some(size) => size == entry_size(entry@),
            None => entry_size(entry@) > usize::MAX,
        },
{
    let key_len = entry.cmd.get_key().len();
    let value_len = match entry.cmd.get_value() {
        Some(value) => value.len(),
        None => 0,
    };
    match key_len.checked_add(value_len) {
        Some(both) => both.checked_add(13),
        None => None,
    }
}

/// Whether the entry is a removal.
fn is_removal(entry: &Entry) -> (r: bool)
    ensures
        r == entry@.cmd is Remove,
{
    match entry.cmd {
        CommandData::Remove { .. } => true,
        CommandData::Put { .. } => false,
    }
}

/// Merges the tables that a major compaction has chosen and cuts the result
/// into the runs of the tables to write, each of about `limit` bytes.
/// Removals that hide nothing below the next level are left out.
pub(crate) fn merge_major(
    version: &Version,
    table_loader: &TableLoader,
    plan: &MajorCompaction,
    limit: usize,
) -> (r: Vec<Vec<Entry>>)
    requires
        plan.level + 2 <= LEVEL_COUNT,
    ensures
        r.deep_view() == major_output(version@.levels, table_loader@, plan@, limit),
{
    let ghost levels = version@.levels;
    let ghost tables = table_loader@;
    let below = plan.level + 2;
    let mut run: Vec<Entry> = Vec::new();
    assert(run.deep_view() =~= Seq::<EntryView>::empty());
    pour_tables(&mut run, &plan.lower, table_loader);
    pour_tables(&mut run, &plan.upper, table_loader);
    let ghost all = run.deep_view();
    proof {
        lemma_merged_onto(runs_of(plan@.lower, tables), runs_of(plan@.upper, tables));
        assert(all == merged(major_inputs(plan@, tables)));
    }
    // deal the entries that are kept out to the tables
    let ghost kept = is_kept(levels, tables, below as int);
    let mut full: Vec<Vec<Entry>> = Vec::new();
    let mut open: Vec<Entry> = Vec::new();
    let mut size: usize = 0;
    let mut i: usize = 0;
    proof {
        reveal(Seq::filter);
        assert(all.take(0) =~= Seq::<EntryView>::empty());
        assert(full.deep_view() =~= Seq::<Seq<EntryView>>::empty());
        assert(open.deep_view() =~= Seq::<EntryView>::empty());
    }
    while i < run.len()
        invariant
            i <= run.len(),
            all == run.deep_view(),
            levels == version@.levels,
            tables == table_loader@,
            1 <= below <= LEVEL_COUNT,
            kept == is_kept(levels, tables, below as int),
            full.deep_view() == cutting(all.take(i as int).filter(kept), limit).full,
            open.deep_view() == cutting(all.take(i as int).filter(kept), limit).open,
            size == cutting(all.take(i as int).filter(kept), limit).size,
        decreases run.len() - i,
    {
        let entry = &run[i];
        proof {
            assert(all.take(i + 1) =~= all.take(i as int).push(entry@));
            all.take(i as int).lemma_filter_push(entry@, kept);
        }
        let spent = is_removal(entry) && version.query_from(
            table_loader,
            entry.cmd.get_key().as_slice(),
            below,
        ).is_none();
        if !spent {
            let ghost dealt = all.take(i as int).filter(kept);
            let ghost open_before = open.deep_view();
            proof {
                assert(dealt.push(entry@).drop_last() =~= dealt);
            }
            open.push(entry.clone());
            assert(open.deep_view() =~= open_before.push(entry@));
            let reached = match size_of(entry) {
                Some(more) => match size.checked_add(more) {
                    Some(sum) => {
                        size = sum;
                        sum >= limit
                    },
                    None => true,
                },
                None => true,
            };
            if reached {
                let ghost full_before = full.deep_view();
                let mut closed: Vec<Entry> = Vec::new();
                std::mem::swap(&mut open, &mut closed);
                assert(open.deep_view() =~= Seq::<EntryView>::empty());
                full.push(closed);
                assert(full.deep_view() =~= full_before.push(open_before.push(entry@)));
                size = 0;
            }
        }
        i += 1;
    }
    assert(all.take(i as int) =~= all);
    if open.len() > 0 {
        let ghost full_before = full.deep_view();
        let ghost last = open.deep_view();
        full.push(open);
        assert(full.deep_view() =~= full_before.push(last));
    }
    full
}

/// The counters of the tables that the scopes name, as the counters of an
/// edit; none where they do not fit.
pub open spec fn meta_of(scopes: Seq<ScopeView>, tables: Seq<TableView>) -> Option<TableMeta> {
    let totals = level_totals(scopes, tables);
    if totals.size_of_disk <= u64::MAX && totals.len <= usize::MAX {
        Some(TableMeta { size_of_disk: totals.size_of_disk as u64, len: totals.len as usize })
    } else {
        None
    }
}

/// The gens of the scopes, in order.
pub open spec fn gens_of(scopes: Seq<ScopeView>) -> Seq<i64> {
    scopes.map_values(|scope: ScopeView| scope.gen)
}

/// The scopes of the loaded tables with these gens, in order; none where
/// one of the tables is not loaded.
pub open spec fn scopes_of(gens: Seq<i64>, tables: Seq<TableView>) -> Option<Seq<ScopeView>>
    decreases gens.len(),
{
    if gens.len() == 0 {
        Some(Seq::empty())
    } else {
        match (scopes_of(gens.drop_last(), tables), table_of(tables, gens.last())) {
            (Some(scopes), Some(table)) => Some(scopes.push(table.scope())),
            _ => None,
        }
    }
}

/// The edits that install the result of a major compaction: the tables
/// that were merged leave their levels, and the new tables, named by their
/// gens, enter the next level at the place of the choice. Each edit carries
/// the counters of the tables that it moves. There are no such edits where
/// the choice names the last level, where a new table is not loaded, or
/// where counters do not fit.
pub open spec fn major_edits(plan: MajorView, new_gens: Seq<i64>, tables: Seq<TableView>) -> Option<
    Seq<VersionEditView>,
> {
    if plan.level + 1 >= LEVEL_COUNT {
        None
    } else {
        match (
            meta_of(plan.upper, tables),
            meta_of(plan.lower, tables),
            scopes_of(new_gens, tables),
        ) {
            (Some(gone_above), Some(gone_below), Some(scopes)) => match meta_of(scopes, tables) {
                Some(come) => Some(
                    seq![
                        VersionEditView::DeleteFile {
                            gens: gens_of(plan.upper),
                            level: plan.level,
                            meta: gone_above,
                        },
                        VersionEditView::DeleteFile {
                            gens: gens_of(plan.lower),
                            level: (plan.level + 1) as usize,
                            meta: gone_below,
                        },
                        VersionEditView::NewFile {
                            scopes,
                            level: (plan.level + 1) as usize,
                            index: plan.index,
                            meta: come,
                        },
                    ],
                ),
                None => None,
            },
            _ => None,
        }
    }
}

/// The counters of the tables that the scopes name.
pub(crate) fn count_tables(scopes: &Vec<Scope>, table_loader: &TableLoader) -> (r: Option<TableMeta>)
    ensures
        r == meta_of(scopes.deep_view(), table_loader@),
{
    let ghost views = scopes.deep_view();
    let ghost tables = table_loader@;
    let mut size_of_disk: u64 = 0;
    let mut len: usize = 0;
    let mut i: usize = 0;
    assert(views.take(0) =~= Seq::<ScopeView>::empty());
    while i < scopes.len()
        invariant
            i <= scopes.len(),
            views == scopes.deep_view(),
            tables == table_loader@,
            size_of_disk == level_totals(views.take(i as int), tables).size_of_disk,
            len == level_totals(views.take(i as int), tables).len,
        decreases scopes.len() - i,
    {
        proof {
            assert(views.take(i + 1).drop_last() =~= views.take(i as int));
            assert(views.take(i + 1).last() == scopes[i as int]@);
        }
        match table_loader.get(scopes[i].get_gen()) {
            Some(table) => {
                let sizes = size_of_disk.checked_add(table.size_of_disk());
                let lens = len.checked_add(table.len());
                match (sizes, lens) {
                    (Some(sizes), Some(lens)) => {
                        size_of_disk = sizes;
                        len = lens;
                    },
                    _ => {
                        proof {
                            lemma_level_totals_grow(views, tables, i + 1);
                        }
                        return None;
                    },
                }
            },
            None => {},
        }
        i += 1;
    }
    assert(views.take(i as int) =~= views);
    Some(TableMeta { size_of_disk, len })
}

/// What tables count together does not shrink when more scopes are taken
/// in.
proof fn lemma_level_totals_grow(level: Seq<ScopeView>, tables: Seq<TableView>, upto: int)
    requires
        0 <= upto <= level.len(),
    ensures
        level_totals(level.take(upto), tables).size_of_disk <= level_totals(
            level,
            tables,
        ).size_of_disk,
        level_totals(level.take(upto), tables).len <= level_totals(level, tables).len,
        0 <= level_totals(level.take(upto), tables).size_of_disk,
        0 <= level_totals(level.take(upto), tables).len,
    decreases level.len() - upto,
{
    lemma_level_totals_not_negative(level.take(upto), tables);
    if upto == level.len() {
        assert(level.take(upto) =~= level);
    } else {
        lemma_level_totals_grow(level, tables, upto + 1);
        assert(level.take(upto + 1).drop_last() =~= level.take(upto));
    }
}

proof fn lemma_level_totals_not_negative(level: Seq<ScopeView>, tables: Seq<TableView>)
    ensures
        0 <= level_totals(level, tables).size_of_disk,
        0 <= level_totals(level, tables).len,
    decreases level.len(),
{
    if level.len() > 0 {
        lemma_level_totals_not_negative(level.drop_last(), tables);
    }
}

/// The gens of the scopes.
pub(crate) fn gens_in(scopes: &Vec<Scope>) -> (r: Vec<i64>)
    ensures
        r@ == gens_of(scopes.deep_view()),
{
    let ghost views = scopes.deep_view();
    let mut gens: Vec<i64> = Vec::new();
    let mut i: usize = 0;
    assert(gens@ =~= gens_of(views.take(0)));
    while i < scopes.len()
        invariant
            i <= scopes.len(),
            views == scopes.deep_view(),
            gens@ == gens_of(views.take(i as int)),
        decreases scopes.len() - i,
    {
        assert(views[i as int] == scopes[i as int]@);
        gens.push(scopes[i].get_gen());
        assert(gens@ =~= gens_of(views.take(i + 1)));
        i += 1;
    }
    assert(views.take(i as int) =~= views);
    gens
}

/// The scopes of the loaded tables with these gens.
fn scopes_in(gens: &Vec<i64>, table_loader: &TableLoader) -> (r: Option<Vec<Scope>>)
    ensures
        match r {
            Some(scopes) => scopes_of(gens@, table_loader@) == Some(scopes.deep_view()),
            None => scopes_of(gens@, table_loader@) is None,
        },
{
    let ghost tables = table_loader@;
    let mut scopes: Vec<Scope> = Vec::new();
    let mut i: usize = 0;
    assert(gens@.take(0) =~= Seq::<i64>::empty());
    assert(scopes.deep_view() =~= Seq::<ScopeView>::empty());
    while i < gens.len()
        invariant
            i <= gens.len(),
            tables == table_loader@,
            scopes_of(gens@.take(i as int), tables) == Some(scopes.deep_view()),
        decreases gens.len() - i,
    {
        proof {
            assert(gens@.take(i + 1).drop_last() =~= gens@.take(i as int));
            assert(gens@.take(i + 1).last() == gens@[i as int]);
        }
        match table_loader.get(gens[i]) {
            Some(table) => {
                let ghost before = scopes.deep_view();
                let scope = table.scope();
                scopes.push(scope);
                assert(scopes.deep_view() =~= before.push(table@.scope()));
            },
            None => {
                proof {
                    lemma_scopes_of_stays_none(gens@, tables, i + 1);
                }
                return None;
            },
        }
        i += 1;
    }
    assert(gens@.take(i as int) =~= gens@);
    Some(scopes)
}

proof fn lemma_scopes_of_stays_none(gens: Seq<i64>, tables: Seq<TableView>, upto: int)
    requires
        0 <= upto <= gens.len(),
        scopes_of(gens.take(upto), tables) is None,
    ensures
        scopes_of(gens, tables) is None,
    decreases gens.len() - upto,
{
    if upto == gens.len() {
        assert(gens.take(upto) =~= gens);
    } else {
        assert(gens.take(upto + 1).drop_last() =~= gens.take(upto));
        lemma_scopes_of_stays_none(gens, tables, upto + 1);
    }
}

/// Builds the edits that install the result of a major compaction.
pub fn edits_for_major(plan: &MajorCompaction, new_gens: &Vec<i64>, table_loader: &TableLoader) -> (r:
    Option<Vec<VersionEdit>>)
    ensures
        match r {
            Some(edits) => major_edits(plan@, new_gens@, table_loader@) == Some(edits.deep_view()),
            None => major_edits(plan@, new_gens@, table_loader@) is None,
        },
{
    if plan.level >= LEVEL_COUNT - 1 {
        return None;
    }
    let gone_above = match count_tables(&plan.upper, table_loader) {
        Some(meta) => meta,
        None => {
            return None;
        },
    };
    let gone_below = match count_tables(&plan.lower, table_loader) {
        Some(meta) => meta,
        None => {
            return None;
        },
    };
    let scopes = match scopes_in(new_gens, table_loader) {
        Some(scopes) => scopes,
        None => {
            return None;
        },
    };
    let come = match count_tables(&scopes, table_loader) {
        Some(meta) => meta,
        None => {
            return None;
        },
    };
    let mut edits: Vec<VersionEdit> = Vec::new();
    edits.push(VersionEdit::DeleteFile((gens_in(&plan.upper), plan.level), gone_above));
    edits.push(VersionEdit::DeleteFile((gens_in(&plan.lower), plan.level + 1), gone_below));
    edits.push(VersionEdit::NewFile((scopes, plan.level + 1), plan.index, come));
    assert(edits.deep_view() =~= major_edits(plan@, new_gens@, table_loader@).unwrap());
    Some(edits)
}

} // verus!
