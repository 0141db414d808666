use std::path::PathBuf;

use kip_db::compactor::plan_major;
use kip_db::config::Config;
use kip_db::lsm_kv::LsmStore;
use kip_db::scope::Scope;
use kip_db::version::cleaner::{CleanTag, Cleaner};
use kip_db::version::edit::VersionEdit;
use kip_db::version::meta::TableMeta;
use kip_db::version::Version;
use kip_db::table::{Table, TableLoader};
use kip_db::run::Entry;
use kip_db::command::CommandData;

#[test]
fn gens_go_when_the_next_version_is_retired() {
    let mut cleaner = Cleaner::new();
    assert!(cleaner.on_tag(CleanTag::Add { version: 1, gens: vec![10, 11] }).is_empty());
    assert!(cleaner.on_tag(CleanTag::Add { version: 2, gens: vec![20] }).is_empty());
    assert!(cleaner.on_tag(CleanTag::Add { version: 1, gens: vec![12] }).is_empty());
    // version 1 is retired: nothing waits under version 0
    assert!(cleaner.on_tag(CleanTag::Clean(1)).is_empty());
    assert!(cleaner.on_tag(CleanTag::Clean(0)).is_empty());
    // version 2 is retired: what version 1 handed in goes
    assert_eq!(cleaner.on_tag(CleanTag::Clean(2)), vec![10, 11, 12]);
    assert!(cleaner.on_tag(CleanTag::Clean(2)).is_empty());
    assert_eq!(cleaner.clean(3), vec![20]);
    assert!(cleaner.drain().is_empty());
}

#[test]
fn a_gen_that_could_not_be_deleted_waits_again() {
    let mut cleaner = Cleaner::new();
    cleaner.add(4, vec![1, 2, 3]);
    assert_eq!(cleaner.clean(5), vec![1, 2, 3]);
    cleaner.add(4, vec![2]);
    cleaner.add(7, vec![9]);
    assert_eq!(cleaner.clean(5), vec![2]);
    cleaner.add(4, vec![2]);
    assert_eq!(cleaner.drain(), vec![9, 2]);
    assert!(cleaner.drain().is_empty());
}

#[test]
fn a_version_says_when_it_is_retired() {
    let mut version = Version::new();
    assert_eq!(version.retire(), CleanTag::Clean(0));
    version.apply(Vec::new()).unwrap();
    assert_eq!(version.retire(), CleanTag::Clean(1));
    assert_eq!(version.clone().retire(), CleanTag::Clean(1));
}

fn scope(gen: i64, start: &[u8], end: &[u8]) -> Scope {
    Scope::from_range(gen, start.to_vec(), end.to_vec())
}

fn gens(scopes: &[Scope]) -> Vec<i64> {
    scopes.iter().map(Scope::get_gen).collect()
}

fn meta() -> TableMeta {
    TableMeta { size_of_disk: 1, len: 1 }
}

#[test]
fn fusion_covers_all_scopes() {
    assert!(Scope::fusion(&Vec::new()).is_none());
    let fused =
        Scope::fusion(&vec![scope(1, b"k", b"m"), scope(2, b"c", b"l"), scope(3, b"d", b"x")])
            .unwrap();
    assert_eq!(fused.start(), b"c");
    assert_eq!(fused.end(), b"x");
    assert_eq!(fused.get_gen(), 0);
    let single = Scope::fusion(&vec![scope(1, b"k", b"m")]).unwrap();
    assert_eq!((single.start(), single.end()), (&b"k"[..], &b"m"[..]));
}

#[test]
fn major_compaction_of_level_0_widens_its_choice() {
    let mut version = Version::new();
    version
        .apply(vec![
            VersionEdit::NewFile(
                (
                    vec![
                        scope(1, b"c", b"e"),
                        scope(2, b"d", b"f"),
                        scope(3, b"x", b"z"),
                        scope(4, b"g", b"h"),
                        scope(5, b"p", b"q"),
                    ],
                    0,
                ),
                0,
                meta(),
            ),
            VersionEdit::NewFile(
                (vec![scope(11, b"a", b"b"), scope(12, b"e", b"h"), scope(13, b"m", b"n")], 1),
                0,
                meta(),
            ),
        ])
        .unwrap();
    // picks 1 and 2 cover c..f; below, 12 overlaps; 12 covers e..h, which brings in 4
    let plan = plan_major(&version, 2, 0).unwrap();
    assert_eq!(plan.level, 0);
    assert_eq!(gens(&plan.lower), vec![12]);
    assert_eq!(gens(&plan.upper), vec![1, 2, 4]);
    assert_eq!(plan.index, 1);
    // with nothing below in the way only the picks go
    let plan = plan_major(&version, 10, 1).unwrap();
    assert_eq!(gens(&plan.upper), vec![11, 12, 13]);
    assert!(plan.lower.is_empty());
    assert_eq!(plan.index, 0);
    assert!(plan_major(&version, 0, 0).is_none());
    assert!(plan_major(&version, 3, 2).is_none());
    assert!(plan_major(&version, 3, 6).is_none());
    assert!(plan_major(&version, 3, 7).is_none());
}

#[test]
fn major_compaction_goes_where_its_range_begins() {
    let mut version = Version::new();
    version
        .apply(vec![
            VersionEdit::NewFile(
                (vec![scope(1, b"f", b"g"), scope(2, b"r", b"s")], 1),
                0,
                meta(),
            ),
            VersionEdit::NewFile(
                (
                    vec![
                        scope(11, b"a", b"b"),
                        scope(12, b"c", b"d"),
                        scope(13, b"h", b"k"),
                        scope(14, b"s", b"t"),
                    ],
                    2,
                ),
                0,
                meta(),
            ),
        ])
        .unwrap();
    // f..g overlaps nothing below and belongs between 12 and 13
    let plan = plan_major(&version, 1, 1).unwrap();
    assert_eq!(gens(&plan.upper), vec![1]);
    assert!(plan.lower.is_empty());
    assert_eq!(plan.index, 2);
    // f..s overlaps 13 and 14, the first of which stands at place 2
    let plan = plan_major(&version, 2, 1).unwrap();
    assert_eq!(gens(&plan.upper), vec![1, 2]);
    assert_eq!(gens(&plan.lower), vec![13, 14]);
    assert_eq!(plan.index, 2);
}

#[test]
fn the_store_plans_with_its_own_options() {
    let config = Config::new(PathBuf::from("plan"), 0, 0).major_select_file_size(1);
    let (mut store, _) =
        LsmStore::open_with_config(config, None, Vec::new(), Vec::new()).unwrap();
    assert!(store.major_compaction_sync(0).is_none());
    for (gen, key) in [(1i64, b"a"), (2, b"b")] {
        store.set(key, vec![1]);
        store.flush().unwrap();
        store.install_minor(gen, 1, true).unwrap();
    }
    let plan = store.major_compaction_sync(0).unwrap();
    assert_eq!(gens(&plan.upper), vec![1]);
    assert!(plan.lower.is_empty());
    assert_eq!(plan.index, 0);
}

#[test]
fn tables_are_picked_by_a_test_of_the_caller() {
    let table = |gen: i64, key: &[u8]| {
        Table::new(gen, vec![Entry { cmd: CommandData::set(key.to_vec(), vec![1]), seq: 1 }], 1)
            .unwrap()
    };
    let loader =
        TableLoader::from_tables(vec![table(1, b"a"), table(2, b"c"), table(4, b"g")]).unwrap();
    let mut version = Version::new();
    version
        .apply(vec![VersionEdit::NewFile(
            (
                vec![
                    scope(1, b"a", b"a"),
                    scope(2, b"c", b"c"),
                    scope(3, b"e", b"e"),
                    scope(4, b"g", b"g"),
                ],
                1,
            ),
            0,
            meta(),
        )])
        .unwrap();
    let target = scope(0, b"b", b"f");
    let picked = version.tables_by_meet_scope(&loader, 1, |scope| scope.meet(&target));
    assert_eq!(picked.iter().map(|table| table.get_gen()).collect::<Vec<_>>(), vec![2]);
    let all = version.tables_by_meet_scope(&loader, 1, |_| true);
    assert_eq!(all.iter().map(|table| table.get_gen()).collect::<Vec<_>>(), vec![1, 2, 4]);
    assert!(version.tables_by_meet_scope(&loader, 1, |_| false).is_empty());
}

#[test]
fn gens_wait_under_the_version_before() {
    use_bucket_of();
}

fn use_bucket_of() {
    assert_eq!(kip_db::version::cleaner::bucket_of(0), None);
    assert_eq!(kip_db::version::cleaner::bucket_of(1), Some(0));
    assert_eq!(kip_db::version::cleaner::bucket_of(u64::MAX), Some(u64::MAX - 1));
    assert!(!kip_db::version::is_log_full(232));
    assert!(kip_db::version::is_log_full(233));
    assert!(kip_db::version::is_log_full(234));
}
