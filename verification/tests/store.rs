use std::path::PathBuf;

use kip_db::command::CommandData;
use kip_db::config::Config;
use kip_db::error::KvsError;
use kip_db::lsm_kv::{GenSource, LsmStore, MinorCompaction, WalPut};
use kip_db::run::Entry;
use kip_db::scope::Scope;
use kip_db::table::Table;
use kip_db::version::cleaner::CleanTag;
use kip_db::version::edit::VersionEdit;
use kip_db::version::meta::TableMeta;

fn open(config: Config) -> LsmStore {
    let (store, tag) = LsmStore::open_with_config(config, None, Vec::new(), Vec::new()).unwrap();
    match tag {
        CleanTag::Add { version, gens } => {
            assert_eq!(version, 1);
            assert!(gens.is_empty());
        }
        CleanTag::Clean(_) => panic!("opening announces deleted gens"),
    }
    store
}

fn config() -> Config {
    Config::new(PathBuf::from("store"), 0, 0)
}

fn size_of(entries: &[Entry]) -> u64 {
    entries.iter().map(|entry| entry.cmd.get_key().len() as u64).sum()
}

/// Carries out a minor compaction and, as the installation asks for them,
/// the major compactions that follow it. Answers how many of these ran.
fn carry_out(store: &mut LsmStore, job: MinorCompaction, next_gen: &mut i64) -> usize {
    let gen = match job.gen {
        GenSource::Fresh(gen) => gen,
        GenSource::WalSwitch => {
            *next_gen += 1;
            *next_gen
        }
    };
    let size = size_of(&job.values);
    let mut asked = store.install_minor(gen, size, job.enable_major).unwrap().compact;
    let mut majors = 0;
    while let Some(level) = asked {
        let plan = match store.major_compaction_sync(level) {
            Some(plan) => plan,
            None => break,
        };
        let mut new_gens = Vec::new();
        for run in store.merge_major(&plan) {
            let gen = store.config().create_gen_lazy();
            let size = size_of(&run);
            store.load_table(Table::new(gen, run, size).unwrap()).unwrap();
            new_gens.push(gen);
        }
        asked = store.install_major(&plan, &new_gens).unwrap().compact;
        majors += 1;
    }
    majors
}

#[test]
fn test_lsm_major_compactor() {
    let times: usize = 5000;

    let value = b"Stray birds of summer come to my window to sing and fly away.
            And yellow leaves of autumn, which have no songs, flutter and fall
            there with a sign.";

    let config = config()
        .wal_enable(false)
        .minor_threshold_with_len(1000)
        .major_threshold_with_sst_size(4);
    let mut kv_store = open(config);
    let mut vec_kv = Vec::new();

    for i in 0..times {
        let vec_u8 = (i as u64).to_le_bytes().to_vec();
        vec_kv.push((
            vec_u8.clone(),
            vec_u8.into_iter().chain(value.to_vec()).collect::<Vec<u8>>(),
        ));
    }

    let mut next_gen = 0;
    let mut majors = 0;
    for i in 0..times {
        let appended = kv_store.set(&vec_kv[i].0, vec_kv[i].1.clone());
        assert_eq!(appended.wal, WalPut::Skip);
        if let Some(job) = appended.minor {
            majors += carry_out(&mut kv_store, job, &mut next_gen);
        }
    }

    if let Some(job) = kv_store.flush() {
        majors += carry_out(&mut kv_store, job, &mut next_gen);
    }

    for i in 0..times {
        assert_eq!(kv_store.get(&vec_kv[i].0), Some(vec_kv[i].1.clone()));
    }
    assert!(kv_store.flush().is_none());
    assert!(majors > 0);
    assert!(kv_store.version().level_len(0) < 4);
    assert!(kv_store.version().level_len(1) > 0);
    assert!(kv_store.is_tidy());
    assert_eq!(kv_store.len().unwrap(), times);
}

#[test]
fn set_get_remove_on_an_empty_store() {
    let mut store = open(config());
    assert!(store.is_empty());
    assert_eq!(store.get(b"a"), None);
    let appended = store.set(b"a", vec![1]);
    assert_eq!(appended.wal, WalPut::Async);
    assert!(appended.minor.is_none());
    assert_eq!(store.get(b"a"), Some(vec![1]));
    assert!(!store.is_empty());
    assert_eq!(store.len().unwrap(), 1);
    assert!(store.remove(b"a").is_ok());
    assert_eq!(store.get(b"a"), None);
    assert_eq!(store.remove(b"a").unwrap_err(), KvsError::KeyNotFound);
    assert_eq!(store.remove(b"b").unwrap_err(), KvsError::KeyNotFound);
}

#[test]
fn an_empty_value_reads_as_a_miss() {
    let mut store = open(config());
    store.set(b"a", vec![]);
    assert_eq!(store.get(b"a"), None);
    assert_eq!(store.mem_table().find(b"a"), Some(vec![]));
    assert_eq!(store.remove(b"a").unwrap_err(), KvsError::KeyNotFound);
}

#[test]
fn wal_decision_follows_the_options() {
    let store = open(config());
    assert_eq!(store.wal_put(true), WalPut::Async);
    assert_eq!(store.wal_put(false), WalPut::Skip);
    assert_eq!(store.create_gen(), GenSource::WalSwitch);
    let store = open(config().wal_async_put_enable(false));
    assert_eq!(store.wal_put(true), WalPut::Sync);
    assert!(store.is_enable_wal());
    assert!(!store.is_async_wal());
    let store = open(config().wal_enable(false));
    assert_eq!(store.wal_put(true), WalPut::Skip);
    assert!(matches!(store.create_gen(), GenSource::Fresh(_)));
}

#[test]
fn a_write_is_read_back_after_flush_and_installation() {
    let mut store = open(config());
    store.set(b"k", vec![7, 7]);
    store.set(b"a", vec![1]);
    let job = store.flush().unwrap();
    assert_eq!(job.gen, GenSource::WalSwitch);
    assert!(job.enable_major);
    assert_eq!(job.values.len(), 2);
    assert_eq!(job.values[0].cmd, CommandData::set(b"a".to_vec(), vec![1]));
    assert_eq!(job.values[1].cmd, CommandData::set(b"k".to_vec(), vec![7, 7]));
    assert_eq!(job.last_seq_id, job.values.iter().map(|entry| entry.seq).max().unwrap());
    // the frozen run is still read
    assert_eq!(store.get(b"k"), Some(vec![7, 7]));
    assert!(store.mem_table().is_empty());
    assert!(store.mem_table().has_frozen());
    let installed = store.install_minor(41, 100, true).unwrap();
    assert_eq!(installed.compact, None);
    match installed.clean_tag {
        CleanTag::Add { version, gens } => {
            assert_eq!(version, 2);
            assert!(gens.is_empty());
        }
        CleanTag::Clean(_) => panic!("installing announces deleted gens"),
    }
    // now the table is read
    assert!(!store.mem_table().has_frozen());
    assert_eq!(store.mem_table().find(b"k"), None);
    assert_eq!(store.get(b"k"), Some(vec![7, 7]));
    assert_eq!(store.get(b"a"), Some(vec![1]));
    assert_eq!(store.get(b"b"), None);
    assert_eq!(store.size_of_disk(), 100);
    assert_eq!(store.len().unwrap(), 2);
    assert_eq!(store.version().level_len(0), 1);
    assert_eq!(store.table_loader().len(), 1);
    let scope = &store.version().level_scopes(0)[0];
    assert_eq!(scope.get_gen(), 41);
    assert_eq!(scope.start(), b"a");
    assert_eq!(scope.end(), b"k");
}

#[test]
fn a_removal_hides_what_the_tables_hold() {
    let mut store = open(config());
    store.set(b"k", vec![1]);
    store.flush().unwrap();
    store.install_minor(1, 10, true).unwrap();
    assert_eq!(store.get(b"k"), Some(vec![1]));
    store.remove(b"k").unwrap();
    assert_eq!(store.get(b"k"), None);
    store.flush().unwrap();
    assert_eq!(store.get(b"k"), None);
    store.install_minor(2, 10, true).unwrap();
    assert_eq!(store.get(b"k"), None);
    // the older table still holds the value, the newer one hides it
    assert_eq!(store.table_loader().get(1).unwrap().query(b"k"), Some(vec![1]));
    assert_eq!(store.table_loader().get(2).unwrap().query(b"k"), Some(vec![]));
    assert_eq!(store.remove(b"k").unwrap_err(), KvsError::KeyNotFound);
}

#[test]
fn overwriting_one_key_keeps_one_entry() {
    let mut store = open(config());
    for i in 0..1000u32 {
        store.set(b"same", i.to_le_bytes().to_vec());
    }
    assert_eq!(store.mem_table().len(), 1);
    let job = store.flush().unwrap();
    assert_eq!(job.values.len(), 1);
    store.install_minor(5, 1, true).unwrap();
    assert_eq!(store.len().unwrap(), 1);
    assert_eq!(store.get(b"same"), Some(999u32.to_le_bytes().to_vec()));
}

#[test]
fn the_threshold_sets_off_one_minor_compaction_at_a_time() {
    let mut store = open(config().minor_threshold_with_len(2).wal_enable(false));
    assert!(store.set(b"a", vec![1]).minor.is_none());
    let job = store.set(b"b", vec![2]).minor.unwrap();
    assert_eq!(job.values.len(), 2);
    assert!(matches!(job.gen, GenSource::Fresh(_)));
    // while the frozen run waits, further writes set off nothing
    assert!(store.set(b"c", vec![3]).minor.is_none());
    assert!(store.set(b"d", vec![4]).minor.is_none());
    assert!(store.minor_compaction().is_none());
    // a flush hands the waiting run out again
    let again = store.flush().unwrap();
    assert_eq!(again.values.len(), 2);
    assert_eq!(again.values[0].cmd, CommandData::set(b"a".to_vec(), vec![1]));
    store.install_minor(1, 1, true).unwrap();
    let next = store.flush().unwrap();
    assert_eq!(next.values.len(), 2);
    assert_eq!(next.values[0].cmd, CommandData::set(b"c".to_vec(), vec![3]));
    store.install_minor(2, 1, true).unwrap();
    assert!(store.flush().is_none());
    for (key, value) in [(b"a", 1u8), (b"b", 2), (b"c", 3), (b"d", 4)] {
        assert_eq!(store.get(key), Some(vec![value]));
    }
}

#[test]
fn installation_is_refused_without_a_frozen_run_or_with_a_used_gen() {
    let mut store = open(config());
    assert_eq!(store.install_minor(1, 1, true).unwrap_err(), KvsError::Internal);
    store.set(b"a", vec![1]);
    store.flush().unwrap();
    store.install_minor(1, 1, true).unwrap();
    store.set(b"b", vec![1]);
    store.flush().unwrap();
    assert_eq!(store.install_minor(1, 1, true).unwrap_err(), KvsError::Internal);
    assert_eq!(store.install_minor(2, u64::MAX, true).unwrap_err(), KvsError::Internal);
    assert_eq!(store.get(b"b"), Some(vec![1]));
    assert!(store.mem_table().has_frozen());
    store.install_minor(2, 1, true).unwrap();
    assert_eq!(store.get(b"b"), Some(vec![1]));
}

#[test]
fn level_0_asks_for_major_compaction_when_full() {
    let mut store = open(config().major_threshold_with_sst_size(2));
    store.set(b"a", vec![1]);
    store.flush().unwrap();
    assert_eq!(store.install_minor(1, 1, true).unwrap().compact, None);
    store.set(b"b", vec![1]);
    store.flush_(true).unwrap();
    assert_eq!(store.install_minor(2, 1, false).unwrap().compact, None);
    store.set(b"c", vec![1]);
    let job = store.flush().unwrap();
    assert_eq!(store.install_minor(3, 1, job.enable_major).unwrap().compact, Some(0));
}

#[test]
fn reopening_recovers_the_replayed_writes() {
    let mut log = Vec::new();
    for i in 0..100u8 {
        log.push(CommandData::set(vec![i], vec![i, 1]));
    }
    log.push(CommandData::set(vec![3], vec![9]));
    log.push(CommandData::remove(vec![4]));
    log.push(CommandData::set(vec![5], vec![1]));
    log.push(CommandData::remove(vec![5]));
    log.push(CommandData::set(vec![5], vec![2]));
    let (mut store, _) =
        LsmStore::open_with_config(config(), Some(log), Vec::new(), Vec::new()).unwrap();
    assert_eq!(store.mem_table().len(), 100);
    for i in 0..100u8 {
        let expected = match i {
            3 => Some(vec![9]),
            4 => None,
            5 => Some(vec![2]),
            _ => Some(vec![i, 1]),
        };
        assert_eq!(store.get(&[i]), expected);
    }
    assert_eq!(store.remove(&[4]).unwrap_err(), KvsError::KeyNotFound);
    store.remove(&[6]).unwrap();
    store.flush().unwrap();
    assert_eq!(store.get(&[6]), None);
}

fn table(gen: i64, keys: &[&[u8]], value: u8) -> Table {
    let entries = keys
        .iter()
        .map(|key| Entry { cmd: CommandData::set(key.to_vec(), vec![value]), seq: gen })
        .collect();
    Table::new(gen, entries, 10).unwrap()
}

#[test]
fn opening_checks_tables_against_the_version() {
    let log = || {
        vec![VersionEdit::NewFile(
            (vec![Scope::from_range(7, b"a".to_vec(), b"c".to_vec())], 1),
            0,
            TableMeta { size_of_disk: 10, len: 2 },
        )]
    };
    let (store, _) =
        LsmStore::open_with_config(config(), None, log(), vec![table(7, &[b"a", b"c"], 1)])
            .unwrap();
    assert_eq!(store.get(b"a"), Some(vec![1]));
    assert_eq!(store.get(b"b"), None);
    assert_eq!(store.len().unwrap(), 2);
    let missing = LsmStore::open_with_config(config(), None, log(), Vec::new());
    assert_eq!(missing.err(), Some(KvsError::Internal));
    let twice = LsmStore::open_with_config(
        config(),
        None,
        log(),
        vec![table(7, &[b"a", b"c"], 1), table(7, &[b"a"], 2)],
    );
    assert_eq!(twice.err(), Some(KvsError::Internal));
    let bad_log = vec![VersionEdit::DeleteFile((vec![1], 9), TableMeta { size_of_disk: 0, len: 0 })];
    let refused = LsmStore::open_with_config(config(), None, bad_log, Vec::new());
    assert_eq!(refused.err(), Some(KvsError::Internal));
}

#[test]
fn levels_are_read_newest_first_and_top_down() {
    let mut store = open(config());
    store.load_table(table(1, &[b"a", b"k"], 1)).unwrap();
    store.load_table(table(2, &[b"k", b"z"], 2)).unwrap();
    store.load_table(table(3, &[b"a", b"c"], 3)).unwrap();
    store.load_table(table(4, &[b"m", b"z"], 4)).unwrap();
    store.load_table(table(5, &[b"a", b"c", b"m", b"q"], 5)).unwrap();
    assert_eq!(store.load_table(table(5, &[b"a"], 6)).unwrap_err(), KvsError::Internal);
    let scope_of = |gen: i64| store.table_loader().get(gen).unwrap().scope();
    let edits = vec![
        VersionEdit::NewFile((vec![scope_of(2), scope_of(1)], 0), 0, TableMeta { size_of_disk: 20, len: 4 }),
        VersionEdit::NewFile((vec![scope_of(4), scope_of(3)], 1), 0, TableMeta { size_of_disk: 20, len: 4 }),
        VersionEdit::NewFile((vec![scope_of(5)], 2), 0, TableMeta { size_of_disk: 10, len: 4 }),
    ];
    store.install(edits).unwrap();
    // level 0: table 2 is newer than table 1
    assert_eq!(store.get(b"k"), Some(vec![2]));
    assert_eq!(store.get(b"a"), Some(vec![1]));
    assert_eq!(store.get(b"z"), Some(vec![2]));
    // level 1 before level 2
    assert_eq!(store.get(b"c"), Some(vec![3]));
    assert_eq!(store.get(b"m"), Some(vec![4]));
    // level 2, where level 1 has nothing
    assert_eq!(store.get(b"q"), Some(vec![5]));
    assert_eq!(store.get(b"b"), None);
    assert_eq!(store.len().unwrap(), 12);
    assert_eq!(store.size_of_disk(), 50);
}

#[test]
fn edits_that_name_a_missing_table_are_refused() {
    let mut store = open(config());
    let edits = vec![VersionEdit::NewFile(
        (vec![Scope::from_range(9, b"a".to_vec(), b"b".to_vec())], 1),
        0,
        TableMeta { size_of_disk: 1, len: 1 },
    )];
    assert_eq!(store.install(edits).unwrap_err(), KvsError::Internal);
    assert_eq!(store.version().version_num(), 1);
    assert_eq!(store.version().level_len(1), 0);
}

#[test]
fn a_table_in_use_is_never_unloaded() {
    let mut store = open(config());
    store.set(b"a", vec![1]);
    store.flush().unwrap();
    store.install_minor(1, 1, true).unwrap();
    assert_eq!(store.unload_table(1).unwrap_err(), KvsError::Internal);
    assert_eq!(store.get(b"a"), Some(vec![1]));
    assert_eq!(store.unload_table(2), Ok(false));
    store.load_table(table(2, &[b"a"], 2)).unwrap();
    assert_eq!(store.unload_table(2), Ok(true));
    assert_eq!(store.table_loader().len(), 1);
    // once an edit deletes the table from the version it can go
    store
        .install(vec![VersionEdit::DeleteFile((vec![1], 0), TableMeta { size_of_disk: 1, len: 1 })])
        .unwrap();
    assert_eq!(store.unload_table(1), Ok(true));
    assert_eq!(store.get(b"a"), None);
}

#[test]
fn a_transaction_keeps_its_snapshot() {
    let mut store = open(config());
    store.set(b"a", vec![1]);
    store.flush().unwrap();
    store.install_minor(1, 1, true).unwrap();
    store.set(b"b", vec![2]);
    let snapshot = store.new_trans();
    store.set(b"b", vec![3]);
    store.flush().unwrap();
    store.install_minor(2, 1, true).unwrap();
    assert_eq!(snapshot.mem_table.find(b"b"), Some(vec![2]));
    assert_eq!(snapshot.version.version_num(), 2);
    assert_eq!(snapshot.version.level_len(0), 1);
    assert_eq!(store.version().level_len(0), 2);
    assert_eq!(store.get(b"b"), Some(vec![3]));
}

#[test]
fn the_staging_table_answers_first() {
    let mut store = open(config());
    assert_eq!(store.get_staged(b"a"), None);
    store.set(b"a", vec![1]);
    store.set(b"b", vec![]);
    assert_eq!(store.get_staged(b"a"), Some(Some(vec![1])));
    assert_eq!(store.get_staged(b"b"), Some(None));
    store.remove(b"a").unwrap();
    assert_eq!(store.get_staged(b"a"), Some(None));
    store.flush().unwrap();
    assert_eq!(store.get_staged(b"a"), Some(None));
    store.install_minor(1, 1, true).unwrap();
    assert_eq!(store.get_staged(b"a"), None);
    assert_eq!(store.get(b"a"), None);
}

#[test]
fn the_edit_of_a_minor_compaction_can_be_had_before() {
    let mut store = open(config());
    assert!(store.minor_edits(4, 10).is_none());
    store.set(b"m", vec![1]);
    store.set(b"c", vec![2]);
    store.set(b"x", vec![3]);
    store.flush().unwrap();
    let edits = store.minor_edits(4, 10).unwrap();
    assert_eq!(edits.len(), 1);
    match &edits[0] {
        VersionEdit::NewFile((scopes, level), index, meta) => {
            assert_eq!((*level, *index), (0, 0));
            assert_eq!(*meta, TableMeta { size_of_disk: 10, len: 3 });
            assert_eq!(scopes.len(), 1);
            assert_eq!(scopes[0].get_gen(), 4);
            assert_eq!(scopes[0].start(), b"c");
            assert_eq!(scopes[0].end(), b"x");
        }
        VersionEdit::DeleteFile(..) => panic!("a minor compaction adds a table"),
    }
    // applying the edit to a copy of the version gives what the installation gives
    let mut copy = store.version().clone();
    copy.apply(edits).unwrap();
    store.install_minor(4, 10, true).unwrap();
    assert_eq!(copy.version_num(), store.version().version_num());
    assert_eq!(copy.level_len(0), store.version().level_len(0));
    assert_eq!(copy.size_of_disk(), store.size_of_disk());
}

#[test]
fn the_directory_lock_is_tried_four_times() {
    use_lock_backoff();
}

fn use_lock_backoff() {
    assert_eq!(kip_db::lsm_kv::lock_backoff(1), Some((100, 2)));
    assert_eq!(kip_db::lsm_kv::lock_backoff(2), Some((200, 4)));
    assert_eq!(kip_db::lsm_kv::lock_backoff(4), Some((400, 8)));
    assert_eq!(kip_db::lsm_kv::lock_backoff(8), None);
    assert_eq!(kip_db::lsm_kv::lock_backoff(5), None);
    assert_eq!(kip_db::lsm_kv::lock_backoff(0), None);
}
