//! Tables: immutable runs named by a gen, and the set of tables that a
//! store has loaded.

use vstd::prelude::*;
use crate::error::KvsError;
use crate::keys::{key_le, key_lt, key_order, KeyOrder};
use crate::keys::{lemma_key_lt_asymmetric, lemma_key_lt_transitive};
use crate::run::{entry_at, has_key, is_run, lemma_rank_splits, rank, search, Entry, EntryView};
use crate::scope::{Scope, ScopeView};
use crate::version::meta::TableMeta;

verus! {

/// A table as a mathematical value.
pub struct TableView {
    pub gen: i64,
    pub entries: Seq<EntryView>,
    pub size_of_disk: u64,
}

impl TableView {
    /// The entries are a run and there is at least one.
    pub open spec fn wf(self) -> bool {
        is_run(self.entries) && self.entries.len() > 0
    }

    /// The scope of the table: from its first key to its last.
    pub open spec fn scope(self) -> ScopeView {
        ScopeView {
            start: self.entries.first().key(),
            end: self.entries.last().key(),
            gen: self.gen,
        }
    }

    /// The value that the table holds for a key: that of the command found,
    /// which is empty for a removal.
    pub open spec fn query(self, key: Seq<u8>) -> Option<Seq<u8>> {
        match entry_at(self.entries, key) {
            Some(entry) => Some(entry.cmd.value()),
            None => None,
        }
    }

    /// The counters of the table.
    pub open spec fn meta(self) -> TableMeta {
        TableMeta { size_of_disk: self.size_of_disk, len: self.entries.len() as usize }
    }
}

/// Every key of a table lies within its scope.
pub proof fn lemma_table_scope_holds_keys(table: TableView, key: Seq<u8>)
    requires
        table.wf(),
        has_key(table.entries, key),
    ensures
        table.scope().holds(key),
        table.scope().is_range(),
{
    let place = rank(table.entries, key);
    let last = table.entries.len() - 1;
    if 0 < place {
        assert(key_lt(table.entries[0].key(), table.entries[place].key()));
    }
    if place < last {
        assert(key_lt(table.entries[place].key(), table.entries[last].key()));
    }
    if 0 < last {
        assert(key_lt(table.entries[0].key(), table.entries[last].key()));
    }
}

/// An immutable table: a run of entries under a gen, with the size of its
/// file.
#[derive(Debug)]
pub struct Table {
    gen: i64,
    entries: Vec<Entry>,
    size_of_disk: u64,
}

impl View for Table {
    type V = TableView;

    closed spec fn view(&self) -> TableView {
        TableView {
            gen: self.gen,
            entries: self.entries.deep_view(),
            size_of_disk: self.size_of_disk,
        }
    }
}

impl DeepView for Table {
    type V = TableView;

    open spec fn deep_view(&self) -> TableView {
        self@
    }
}

/// Whether the keys of the entries ascend strictly.
pub fn is_sorted_run(entries: &Vec<Entry>) -> (r: bool)
    ensures
        r == is_run(entries.deep_view()),
{
    let ghost views = entries.deep_view();
    if entries.len() < 2 {
        return true;
    }
    let mut i: usize = 1;
    while i < entries.len()
        invariant
            1 <= i <= entries.len(),
            views == entries.deep_view(),
            is_run(views.take(i as int)),
        decreases entries.len() - i,
    {
        assert(views[i - 1] == entries[i - 1]@);
        assert(views[i as int] == entries[i as int]@);
        match key_order(
            entries[i - 1].cmd.get_key().as_slice(),
            entries[i].cmd.get_key().as_slice(),
        ) {
            KeyOrder::Less => {},
            _ => {
                assert(!key_lt(views[i - 1].key(), views[i as int].key()));
                return false;
            },
        }
        proof {
            let next = views.take(i + 1);
            let prev = views.take(i as int);
            assert forall|a: int, b: int| 0 <= a < b < next.len() implies key_lt(
                (#[trigger] next[a]).key(),
                (#[trigger] next[b]).key(),
            ) by {
                if b < i {
                    assert(key_lt(prev[a].key(), prev[b].key()));
                } else if a < i - 1 {
                    assert(key_lt(prev[a].key(), prev[i - 1].key()));
                    lemma_key_lt_transitive(next[a].key(), views[i - 1].key(), next[b].key());
                }
            }
        }
        i += 1;
    }
    assert(views.take(i as int) =~= views);
    true
}

impl Table {
    #[verifier::type_invariant]
    spec fn well_formed(&self) -> bool {
        self@.wf()
    }

    /// The table with this gen that holds the entries. The entries must be
    /// a run, and there must be at least one.
    pub fn new(gen: i64, entries: Vec<Entry>, size_of_disk: u64) -> (r: Result<Table, KvsError>)
        ensures
            match r {
                Ok(table) => {
                    &&& table@ == (TableView { gen, entries: entries.deep_view(), size_of_disk })
                    &&& table@.wf()
                },
                Err(e) => e == KvsError::Internal && !(is_run(entries.deep_view()) && entries.len()
                    > 0),
            },
    {
        if entries.len() > 0 && is_sorted_run(&entries) {
            Ok(Table { gen, entries, size_of_disk })
        } else {
            Err(KvsError::Internal)
        }
    }

    /// The gen that names the table.
    pub fn get_gen(&self) -> (r: i64)
        ensures
            r == self@.gen,
    {
        self.gen
    }

    /// The number of entries.
    pub fn len(&self) -> (r: usize)
        ensures
            r == self@.entries.len(),
            r > 0,
    {
        proof {
            use_type_invariant(self);
        }
        self.entries.len()
    }

    /// The size of the table's file in bytes.
    pub fn size_of_disk(&self) -> (r: u64)
        ensures
            r == self@.size_of_disk,
    {
        self.size_of_disk
    }

    /// The counters of the table.
    pub fn meta(&self) -> (r: TableMeta)
        ensures
            r == self@.meta(),
    {
        TableMeta { size_of_disk: self.size_of_disk, len: self.entries.len() }
    }

    /// The entries in ascending order of key.
    pub fn entries(&self) -> (r: &Vec<Entry>)
        ensures
            r.deep_view() == self@.entries,
            self@.wf(),
    {
        proof {
            use_type_invariant(self);
        }
        &self.entries
    }

    /// The scope of the table: from its first key to its last.
    pub fn scope(&self) -> (r: Scope)
        ensures
            r@ == self@.scope(),
            self@.wf(),
    {
        proof {
            use_type_invariant(self);
        }
        let last = self.entries.len() - 1;
        assert(self.entries.deep_view()[0] == self.entries[0]@);
        assert(self.entries.deep_view()[last as int] == self.entries[last as int]@);
        Scope::from_range(
            self.gen,
            self.entries[0].cmd.get_key_clone(),
            self.entries[last].cmd.get_key_clone(),
        )
    }

    /// The value that the table holds for a key. A removal is found as the
    /// empty value.
    pub fn query(&self, key: &[u8]) -> (r: Option<Vec<u8>>)
        ensures
            match r {
                Some(value) => self@.query(key@) == Some(value@),
                None => self@.query(key@) is None,
            },
    {
        proof {
            use_type_invariant(self);
        }
        let (found, place) = search(&self.entries, key);
        if found {
            assert(self.entries.deep_view()[place as int] == self.entries[place as int]@);
            Some(self.entries[place].cmd.found_value())
        } else {
            None
        }
    }
}

/// No two of the tables have the same gen.
pub open spec fn gens_distinct(tables: Seq<TableView>) -> bool {
    forall|i: int, j: int|
        0 <= i < j < tables.len() ==> (#[trigger] tables[i]).gen != (#[trigger] tables[j]).gen
}

/// Whether one of the tables has this gen.
pub open spec fn has_table(tables: Seq<TableView>, gen: i64) -> bool {
    exists|i: int| 0 <= i < tables.len() && (#[trigger] tables[i]).gen == gen
}

/// The table with this gen.
pub open spec fn table_of(tables: Seq<TableView>, gen: i64) -> Option<TableView> {
    if has_table(tables, gen) {
        Some(tables[choose|i: int| 0 <= i < tables.len() && (#[trigger] tables[i]).gen == gen])
    } else {
        None
    }
}

/// The tables without the one with this gen, if there is one.
pub open spec fn without_table(tables: Seq<TableView>, gen: i64) -> Seq<TableView> {
    if has_table(tables, gen) {
        tables.remove(choose|i: int| 0 <= i < tables.len() && (#[trigger] tables[i]).gen == gen)
    } else {
        tables
    }
}

/// The tables are well formed and their gens are distinct.
pub open spec fn tables_wf(tables: Seq<TableView>) -> bool {
    &&& gens_distinct(tables)
    &&& forall|i: int| 0 <= i < tables.len() ==> (#[trigger] tables[i]).wf()
}

/// Among tables with distinct gens, the table at a place is the table of
/// its gen.
pub proof fn lemma_table_of_place(tables: Seq<TableView>, place: int)
    requires
        gens_distinct(tables),
        0 <= place < tables.len(),
    ensures
        table_of(tables, tables[place].gen) == Some(tables[place]),
{
    let found = choose|i: int| 0 <= i < tables.len() && (#[trigger] tables[i]).gen
        == tables[place].gen;
    if found < place {
        assert(tables[found].gen != tables[place].gen);
    } else if place < found {
        assert(tables[place].gen != tables[found].gen);
    }
}

/// A table that joins tables which lack its gen is found under its gen, and
/// every other gen finds what it found before.
pub proof fn lemma_table_of_after_push(tables: Seq<TableView>, table: TableView, gen: i64)
    requires
        gens_distinct(tables),
        !has_table(tables, table.gen),
    ensures
        gens_distinct(tables.push(table)),
        table_of(tables.push(table), gen) == if gen == table.gen {
            Some(table)
        } else {
            table_of(tables, gen)
        },
{
    let after = tables.push(table);
    assert forall|i: int, j: int| 0 <= i < j < after.len() implies (#[trigger] after[i]).gen != (
    #[trigger] after[j]).gen by {
        if j == tables.len() {
            assert(tables[i].gen != table.gen);
        } else {
            assert(tables[i].gen != tables[j].gen);
        }
    }
    if gen == table.gen {
        assert(after[tables.len() as int].gen == gen);
        lemma_table_of_place(after, tables.len() as int);
    } else if has_table(tables, gen) {
        let place = choose|i: int| 0 <= i < tables.len() && (#[trigger] tables[i]).gen == gen;
        lemma_table_of_place(tables, place);
        assert(after[place] == tables[place]);
        lemma_table_of_place(after, place);
    } else {
        if has_table(after, gen) {
            let place = choose|i: int| 0 <= i < after.len() && (#[trigger] after[i]).gen == gen;
            assert(tables[place].gen == gen);
        }
    }
}

/// Tables with distinct gens, without the one at a place: its gen finds
/// nothing any more, and every other gen finds what it found before.
pub proof fn lemma_tables_without(tables: Seq<TableView>, place: int)
    requires
        tables_wf(tables),
        0 <= place < tables.len(),
    ensures
        tables_wf(tables.remove(place)),
        !has_table(tables.remove(place), tables[place].gen),
        forall|other: i64|
            other != tables[place].gen ==> table_of(tables.remove(place), other) == table_of(
                tables,
                other,
            ),
        forall|other: i64|
            other != tables[place].gen ==> has_table(tables.remove(place), other) == has_table(
                tables,
                other,
            ),
{
    let rest = tables.remove(place);
    let gen = tables[place].gen;
    assert forall|i: int| 0 <= i < rest.len() implies #[trigger] rest[i] == tables[if i < place {
        i
    } else {
        i + 1
    }] by {}
    assert forall|i: int, j: int| 0 <= i < j < rest.len() implies (#[trigger] rest[i]).gen != (
    #[trigger] rest[j]).gen by {
        let a = if i < place { i } else { i + 1 };
        let b = if j < place { j } else { j + 1 };
        assert(rest[i] == tables[a]);
        assert(rest[j] == tables[b]);
        assert(tables[a].gen != tables[b].gen);
    }
    assert forall|i: int| 0 <= i < rest.len() implies (#[trigger] rest[i]).wf() by {
        let a = if i < place { i } else { i + 1 };
        assert(rest[i] == tables[a]);
        assert(tables[a].wf());
    }
    if has_table(rest, gen) {
        let i = choose|i: int| 0 <= i < rest.len() && (#[trigger] rest[i]).gen == gen;
        let a = if i < place { i } else { i + 1 };
        assert(rest[i] == tables[a]);
        if a < place {
            assert(tables[a].gen != tables[place].gen);
        } else {
            assert(tables[place].gen != tables[a].gen);
        }
    }
    assert forall|other: i64| other != gen implies (table_of(rest, other) == table_of(
        tables,
        other,
    ) && has_table(rest, other) == has_table(tables, other)) by {
        if has_table(tables, other) {
            let a = choose|a: int| 0 <= a < tables.len() && (#[trigger] tables[a]).gen == other;
            lemma_table_of_place(tables, a);
            let i = if a < place { a } else { a - 1 };
            assert(rest[i] == tables[a]);
            lemma_table_of_place(rest, i);
        } else if has_table(rest, other) {
            let i = choose|i: int| 0 <= i < rest.len() && (#[trigger] rest[i]).gen == other;
            let a = if i < place { i } else { i + 1 };
            assert(rest[i] == tables[a]);
            assert(tables[a].gen == other);
        }
    }
}

/// The tables that a store has loaded, found by gen.
#[derive(Debug)]
pub struct TableLoader {
    tables: Vec<Table>,
}

impl View for TableLoader {
    type V = Seq<TableView>;

    closed spec fn view(&self) -> Seq<TableView> {
        self.tables.deep_view()
    }
}

impl TableLoader {
    #[verifier::type_invariant]
    spec fn well_formed(&self) -> bool {
        tables_wf(self@)
    }

    /// A loader without tables.
    pub fn new() -> (r: TableLoader)
        ensures
            r@ == Seq::<TableView>::empty(),
    {
        let r = TableLoader { tables: Vec::new() };
        assert(r.tables.deep_view() =~= Seq::<TableView>::empty());
        r
    }

    /// A loader with these tables. Tables with one gen twice are refused.
    pub fn from_tables(tables: Vec<Table>) -> (r: Result<TableLoader, KvsError>)
        ensures
            match r {
                Ok(loader) => loader@ == tables.deep_view() && tables_wf(loader@),
                Err(e) => e == KvsError::Internal && !gens_distinct(tables.deep_view()),
            },
    {
        let ghost views = tables.deep_view();
        let mut j: usize = 0;
        while j < tables.len()
            invariant
                j <= tables.len(),
                views == tables.deep_view(),
                gens_distinct(views.take(j as int)),
                forall|k: int| 0 <= k < j ==> (#[trigger] views[k]).wf(),
            decreases tables.len() - j,
        {
            let table = &tables[j];
            proof {
                use_type_invariant(table);
            }
            assert(views[j as int] == tables[j as int]@);
            let gen = table.get_gen();
            let mut i: usize = 0;
            while i < j
                invariant
                    i <= j < tables.len(),
                    views == tables.deep_view(),
                    gen == views[j as int].gen,
                    forall|k: int| 0 <= k < i ==> (#[trigger] views[k]).gen != gen,
                decreases j - i,
            {
                assert(views[i as int] == tables[i as int]@);
                if tables[i].get_gen() == gen {
                    assert(views[i as int].gen == views[j as int].gen);
                    return Err(KvsError::Internal);
                }
                i += 1;
            }
            proof {
                let next = views.take(j + 1);
                let prev = views.take(j as int);
                assert forall|a: int, b: int| 0 <= a < b < next.len() implies (#[trigger] next[a]).gen
                    != (#[trigger] next[b]).gen by {
                    if b < j {
                        assert(prev[a].gen != prev[b].gen);
                    } else {
                        assert(views[a].gen != gen);
                    }
                }
            }
            j += 1;
        }
        assert(views.take(j as int) =~= views);
        Ok(TableLoader { tables })
    }

    /// The number of tables loaded.
    pub fn len(&self) -> (r: usize)
        ensures
            r == self@.len(),
    {
        self.tables.len()
    }

    /// The place of the table with this gen.
    fn place_of(&self, gen: i64) -> (r: Option<usize>)
        ensures
            tables_wf(self@),
            match r {
                Some(place) => place < self@.len() && self@[place as int].gen == gen && table_of(
                    self@,
                    gen,
                ) == Some(self@[place as int]),
                None => !has_table(self@, gen) && table_of(self@, gen) is None,
            },
    {
        proof {
            use_type_invariant(self);
        }
        let mut place: usize = 0;
        while place < self.tables.len()
            invariant
                place <= self.tables.len(),
                tables_wf(self@),
                forall|i: int| 0 <= i < place ==> (#[trigger] self@[i]).gen != gen,
            decreases self.tables.len() - place,
        {
            assert(self@[place as int] == self.tables[place as int]@);
            if self.tables[place].get_gen() == gen {
                proof {
                    lemma_table_of_place(self@, place as int);
                }
                return Some(place);
            }
            place += 1;
        }
        None
    }

    /// The table with this gen, if it is loaded.
    pub fn get(&self, gen: i64) -> (r: Option<&Table>)
        ensures
            tables_wf(self@),
            match r {
                Some(table) => table_of(self@, gen) == Some(table@) && table@.gen == gen
                    && table@.wf(),
                None => table_of(self@, gen) is None,
            },
    {
        match self.place_of(gen) {
            Some(place) => {
                assert(self@[place as int] == self.tables[place as int]@);
                Some(&self.tables[place])
            },
            None => None,
        }
    }

    /// Whether the table with this gen is loaded.
    pub fn contains(&self, gen: i64) -> (r: bool)
        ensures
            r == has_table(self@, gen),
            r == table_of(self@, gen) is Some,
            tables_wf(self@),
    {
        self.place_of(gen).is_some()
    }

    /// Lets the table with this gen go, and answers whether there was one.
    pub fn remove(&mut self, gen: i64) -> (removed: bool)
        ensures
            tables_wf(final(self)@),
            final(self)@ == without_table(old(self)@, gen),
            removed == has_table(old(self)@, gen),
            !has_table(final(self)@, gen),
            forall|other: i64|
                other != gen ==> table_of(final(self)@, other) == table_of(old(self)@, other),
            forall|other: i64|
                other != gen ==> has_table(final(self)@, other) == has_table(old(self)@, other),
    {
        proof {
            use_type_invariant(&*self);
        }
        let ghost before = self@;
        match self.place_of(gen) {
            Some(place) => {
                let mut tables: Vec<Table> = Vec::new();
                assert(tables.deep_view() =~= Seq::<TableView>::empty());
                std::mem::swap(&mut self.tables, &mut tables);
                let _ = tables.remove(place);
                let ghost after = tables.deep_view();
                proof {
                    assert(after =~= before.remove(place as int));
                    lemma_tables_without(before, place as int);
                    let found = choose|i: int|
                        0 <= i < before.len() && (#[trigger] before[i]).gen == gen;
                    if found < place {
                        assert(before[found].gen != before[place as int].gen);
                    } else if place < found {
                        assert(before[place as int].gen != before[found].gen);
                    }
                }
                self.tables = tables;
                true
            },
            None => false,
        }
    }

    /// Takes a table in. A table whose gen is already loaded is refused.
    pub fn insert(&mut self, table: Table) -> (r: Result<(), KvsError>)
        ensures
            tables_wf(final(self)@),
            match r {
                Ok(_) => {
                    &&& !has_table(old(self)@, table@.gen)
                    &&& final(self)@ == old(self)@.push(table@)
                },
                Err(e) => {
                    &&& e == KvsError::Internal
                    &&& has_table(old(self)@, table@.gen)
                    &&& final(self)@ == old(self)@
                },
            },
    {
        proof {
            use_type_invariant(&*self);
            use_type_invariant(&table);
        }
        if self.contains(table.get_gen()) {
            return Err(KvsError::Internal);
        }
        let ghost before = self@;
        proof {
            lemma_table_of_after_push(before, table@, table@.gen);
        }
        let mut tables: Vec<Table> = Vec::new();
        assert(tables.deep_view() =~= Seq::<TableView>::empty());
        std::mem::swap(&mut self.tables, &mut tables);
        tables.push(table);
        assert(tables.deep_view() =~= before.push(table@));
        self.tables = tables;
        Ok(())
    }
}

} // verus!
