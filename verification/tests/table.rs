use kip_db::command::CommandData;
use kip_db::error::KvsError;
use kip_db::run::Entry;
use kip_db::scope::Scope;
use kip_db::table::{is_sorted_run, Table, TableLoader};
use kip_db::version::edit::VersionEdit;
use kip_db::version::meta::TableMeta;
use kip_db::version::Version;

fn entry(key: &[u8], value: &[u8]) -> Entry {
    Entry { cmd: CommandData::set(key.to_vec(), value.to_vec()), seq: 1 }
}

fn table(gen: i64, keys: &[&[u8]]) -> Table {
    Table::new(gen, keys.iter().map(|key| entry(key, &[gen as u8])).collect(), 10).unwrap()
}

fn gens(tables: &[&Table]) -> Vec<i64> {
    tables.iter().map(|table| table.get_gen()).collect()
}

fn scope_gens(scopes: &[Scope]) -> Vec<i64> {
    scopes.iter().map(Scope::get_gen).collect()
}

#[test]
fn a_table_answers_for_its_keys() {
    let entries = vec![
        entry(b"a", b"1"),
        Entry { cmd: CommandData::remove(b"c".to_vec()), seq: 2 },
        entry(b"k", b"3"),
    ];
    let table = Table::new(4, entries.clone(), 99).unwrap();
    assert_eq!(table.get_gen(), 4);
    assert_eq!(table.len(), 3);
    assert_eq!(table.size_of_disk(), 99);
    assert_eq!(table.meta(), TableMeta { size_of_disk: 99, len: 3 });
    assert_eq!(table.entries(), &entries);
    assert_eq!(table.query(b"a"), Some(b"1".to_vec()));
    assert_eq!(table.query(b"c"), Some(vec![]));
    assert_eq!(table.query(b"k"), Some(b"3".to_vec()));
    assert_eq!(table.query(b"b"), None);
    assert_eq!(table.query(b"z"), None);
    let scope = table.scope();
    assert_eq!(scope.get_gen(), 4);
    assert_eq!(scope.start(), b"a");
    assert_eq!(scope.end(), b"k");
}

#[test]
fn a_table_needs_a_run_that_is_not_empty() {
    assert_eq!(Table::new(1, Vec::new(), 0).err(), Some(KvsError::Internal));
    assert_eq!(
        Table::new(1, vec![entry(b"b", b"1"), entry(b"a", b"2")], 0).err(),
        Some(KvsError::Internal)
    );
    assert_eq!(
        Table::new(1, vec![entry(b"a", b"1"), entry(b"a", b"2")], 0).err(),
        Some(KvsError::Internal)
    );
    assert!(is_sorted_run(&vec![entry(b"a", b"1"), entry(b"ab", b"2"), entry(b"b", b"2")]));
    assert!(is_sorted_run(&Vec::new()));
    assert!(!is_sorted_run(&vec![entry(b"a", b"1"), entry(b"c", b"2"), entry(b"b", b"2")]));
}

#[test]
fn a_loader_finds_tables_by_gen() {
    let mut loader = TableLoader::new();
    assert_eq!(loader.len(), 0);
    assert!(loader.get(1).is_none());
    loader.insert(table(1, &[b"a"])).unwrap();
    loader.insert(table(3, &[b"b"])).unwrap();
    assert_eq!(loader.insert(table(1, &[b"c"])).unwrap_err(), KvsError::Internal);
    assert_eq!(loader.len(), 2);
    assert!(loader.contains(3));
    assert!(!loader.contains(2));
    assert_eq!(loader.get(1).unwrap().query(b"a"), Some(vec![1]));
    assert_eq!(loader.get(3).unwrap().query(b"b"), Some(vec![3]));
    assert!(loader.remove(1));
    assert!(!loader.remove(1));
    assert!(loader.get(1).is_none());
    assert_eq!(loader.get(3).unwrap().get_gen(), 3);
    let loader = TableLoader::from_tables(vec![table(5, &[b"a"]), table(6, &[b"a"])]).unwrap();
    assert_eq!(loader.len(), 2);
    let twice = TableLoader::from_tables(vec![table(5, &[b"a"]), table(6, &[b"a"]), table(5, &[b"b"])]);
    assert_eq!(twice.err(), Some(KvsError::Internal));
}

fn version_and_loader() -> (Version, TableLoader) {
    let tables = vec![
        table(1, &[b"a", b"k"]),
        table(2, &[b"k", b"z"]),
        table(3, &[b"a", b"c"]),
        table(4, &[b"e", b"f"]),
        table(6, &[b"m", b"z"]),
    ];
    let scope = |index: usize| tables[index].scope();
    let mut version = Version::new();
    version
        .apply(vec![
            VersionEdit::NewFile(
                (vec![scope(1), scope(0), Scope::from_range(9, b"a".to_vec(), b"b".to_vec())], 0),
                0,
                TableMeta { size_of_disk: 20, len: 4 },
            ),
            VersionEdit::NewFile(
                (vec![scope(4), scope(2), scope(3)], 1),
                0,
                TableMeta { size_of_disk: 20, len: 4 },
            ),
        ])
        .unwrap();
    (version, TableLoader::from_tables(tables).unwrap())
}

#[test]
fn tables_of_a_level_are_picked_in_order() {
    let (version, loader) = version_and_loader();
    // the scope with gen 9 has no loaded table
    assert_eq!(gens(&version.tables_by_level_0(&loader)), vec![1, 2]);
    assert_eq!(version.table(&loader, 0, 1).unwrap().get_gen(), 2);
    assert!(version.table(&loader, 0, 2).is_none());
    assert!(version.table(&loader, 0, 3).is_none());
    assert_eq!(version.table(&loader, 1, 0).unwrap().get_gen(), 3);
    assert!(version.table(&loader, 2, 0).is_none());

    let (tables, scopes) = version.first_tables(&loader, 1, 2).unwrap();
    assert_eq!(gens(&tables), vec![3, 4]);
    assert_eq!(scope_gens(&scopes), vec![3, 4]);
    let (tables, scopes) = version.first_tables(&loader, 0, 10).unwrap();
    assert_eq!(gens(&tables), vec![1, 2]);
    assert_eq!(scope_gens(&scopes), vec![1, 2]);
    let (tables, scopes) = version.first_tables(&loader, 1, 0).unwrap();
    assert!(tables.is_empty());
    assert!(scopes.is_empty());
    assert!(version.first_tables(&loader, 2, 3).is_none());

    let target = Scope::from_range(0, b"d".to_vec(), b"m".to_vec());
    let (tables, scopes) = version.tables_by_scopes(&loader, 1, &target);
    assert_eq!(gens(&tables), vec![4, 6]);
    assert_eq!(scope_gens(&scopes), vec![4, 6]);
    let (tables, scopes) = version.tables_by_scopes(&loader, 0, &target);
    assert_eq!(gens(&tables), vec![1, 2]);
    assert_eq!(scope_gens(&scopes), vec![1, 2]);
    let far = Scope::from_range(0, b"zz".to_vec(), b"zzz".to_vec());
    assert!(version.tables_by_scopes(&loader, 1, &far).0.is_empty());
}

#[test]
fn query_reads_level_0_from_the_newest_table() {
    let (version, loader) = version_and_loader();
    assert_eq!(version.query(&loader, b"k"), Some(vec![2]));
    assert_eq!(version.query(&loader, b"a"), Some(vec![1]));
    assert_eq!(version.query(&loader, b"c"), Some(vec![3]));
    assert_eq!(version.query(&loader, b"e"), Some(vec![4]));
    assert_eq!(version.query(&loader, b"m"), Some(vec![6]));
    assert_eq!(version.query(&loader, b"b"), None);
    assert_eq!(version.query(&TableLoader::new(), b"k"), None);
    assert_eq!(Version::new().query(&loader, b"k"), None);
}
