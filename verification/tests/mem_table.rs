use std::path::PathBuf;

use kip_db::command::CommandData;
use kip_db::config::Config;
use kip_db::mem_table::MemTable;
use kip_db::run::Entry;

fn entry(key: &[u8], value: &[u8], seq: i64) -> Entry {
    Entry { cmd: CommandData::set(key.to_vec(), value.to_vec()), seq }
}

#[test]
fn commands_expose_key_and_value() {
    let set = CommandData::set(b"k".to_vec(), b"v".to_vec());
    assert_eq!(set.get_key(), &b"k".to_vec());
    assert_eq!(set.get_key_clone(), b"k".to_vec());
    assert_eq!(set.get_value(), Some(&b"v".to_vec()));
    assert_eq!(set.get_value_clone(), Some(b"v".to_vec()));
    assert_eq!(set.found_value(), b"v".to_vec());
    let remove = CommandData::remove(b"k".to_vec());
    assert_eq!(remove.get_key(), &b"k".to_vec());
    assert_eq!(remove.get_value(), None);
    assert_eq!(remove.get_value_clone(), None);
    assert_eq!(remove.found_value(), Vec::<u8>::new());
    assert_eq!(set.clone(), set);
    assert_ne!(set, remove);
}

#[test]
fn the_active_run_stays_sorted_and_replaces_equal_keys() {
    let mut mem = MemTable::new();
    mem.insert_data(CommandData::set(b"m".to_vec(), b"1".to_vec()), 1, 10);
    mem.insert_data(CommandData::set(b"c".to_vec(), b"2".to_vec()), 2, 10);
    mem.insert_data(CommandData::set(b"x".to_vec(), b"3".to_vec()), 3, 10);
    mem.insert_data(CommandData::set(b"m".to_vec(), b"4".to_vec()), 4, 10);
    mem.insert_data(CommandData::set(b"a".to_vec(), b"5".to_vec()), 5, 10);
    assert_eq!(mem.len(), 4);
    for (key, value) in [(b"a", b"5"), (b"c", b"2"), (b"m", b"4"), (b"x", b"3")] {
        assert_eq!(mem.find(key), Some(value.to_vec()));
    }
    for key in [&b""[..], b"b", b"z", b"mm"] {
        assert_eq!(mem.find(key), None);
    }
    let (run, _) = mem.table_swap_and_sort().unwrap();
    assert_eq!(
        run,
        vec![entry(b"a", b"5", 5), entry(b"c", b"2", 2), entry(b"m", b"4", 4), entry(b"x", b"3", 3)]
    );
}

#[test]
fn insert_reports_the_threshold() {
    let mut mem = MemTable::new();
    assert!(mem.is_empty());
    assert!(!mem.insert_data(CommandData::set(b"a".to_vec(), vec![1]), 1, 3));
    assert!(!mem.insert_data(CommandData::set(b"b".to_vec(), vec![1]), 2, 3));
    assert!(!mem.insert_data(CommandData::set(b"a".to_vec(), vec![2]), 3, 3));
    assert_eq!(mem.len(), 2);
    assert!(mem.insert_data(CommandData::remove(b"c".to_vec()), 4, 3));
    assert!(mem.insert_data(CommandData::set(b"d".to_vec(), vec![1]), 5, 3));
    assert_eq!(mem.len(), 4);
    assert_eq!(mem.find(b"a"), Some(vec![2]));
    assert_eq!(mem.find(b"c"), Some(vec![]));
    assert_eq!(mem.find(b"e"), None);
    assert!(mem.insert_data(CommandData::set(b"e".to_vec(), vec![1]), 6, 0));
}

#[test]
fn insert_with_config_uses_the_minor_threshold() {
    let config = Config::new(PathBuf::from("mem"), 0, 0).minor_threshold_with_len(2);
    let mut mem = MemTable::new();
    assert!(!mem.insert_data_and_is_exceeded(CommandData::set(b"a".to_vec(), vec![1]), &config));
    assert!(mem.insert_data_and_is_exceeded(CommandData::set(b"b".to_vec(), vec![1]), &config));
    assert_eq!(mem.len(), 2);
}

#[test]
fn swap_freezes_once_and_find_reads_both_runs() {
    let mut mem = MemTable::new();
    assert!(mem.table_swap_and_sort().is_none());
    mem.insert_data(CommandData::set(b"b".to_vec(), vec![1]), 5, 10);
    mem.insert_data(CommandData::set(b"a".to_vec(), vec![2]), 9, 10);
    // an id below the last one used is not taken
    mem.insert_data(CommandData::remove(b"c".to_vec()), 7, 10);
    let (entries, last_seq) = mem.table_swap_and_sort().unwrap();
    assert_eq!(last_seq, 9);
    assert_eq!(
        entries,
        vec![
            entry(b"a", &[2], 9),
            entry(b"b", &[1], 5),
            Entry { cmd: CommandData::remove(b"c".to_vec()), seq: 9 },
        ]
    );
    assert!(mem.is_empty());
    assert!(mem.has_frozen());
    assert_eq!(mem.frozen_len(), Some(3));
    assert_eq!(mem.find(b"a"), Some(vec![2]));
    // the active run comes first
    mem.insert_data(CommandData::set(b"a".to_vec(), vec![3]), 11, 10);
    assert_eq!(mem.find(b"a"), Some(vec![3]));
    assert_eq!(mem.find(b"b"), Some(vec![1]));
    // a second swap leaves both runs as they are and hands out the frozen one
    let (again, last_seq) = mem.table_swap_and_sort().unwrap();
    assert_eq!(again, entries);
    assert_eq!(last_seq, 9);
    assert_eq!(mem.len(), 1);
    let copy = mem.clone();
    mem.clear_frozen();
    assert!(!mem.has_frozen());
    assert_eq!(mem.frozen_len(), None);
    assert_eq!(mem.find(b"b"), None);
    assert_eq!(copy.find(b"b"), Some(vec![1]));
    let (next, last_seq) = mem.table_swap_and_sort().unwrap();
    assert_eq!(next, vec![entry(b"a", &[3], 11)]);
    assert_eq!(last_seq, 11);
    assert_eq!(mem.take_frozen(), Some(vec![entry(b"a", &[3], 11)]));
    assert_eq!(mem.take_frozen(), None);
}

#[test]
fn from_log_keeps_the_last_command_of_each_key() {
    let log = vec![
        CommandData::set(b"b".to_vec(), vec![1]),
        CommandData::set(b"a".to_vec(), vec![2]),
        CommandData::remove(b"b".to_vec()),
        CommandData::set(b"c".to_vec(), vec![3]),
        CommandData::set(b"a".to_vec(), vec![4]),
    ];
    let mut mem = MemTable::from_log(log, 77);
    assert_eq!(mem.len(), 3);
    assert_eq!(mem.find(b"a"), Some(vec![4]));
    assert_eq!(mem.find(b"b"), Some(vec![]));
    assert_eq!(mem.find(b"c"), Some(vec![3]));
    let (entries, last_seq) = mem.table_swap_and_sort().unwrap();
    assert_eq!(last_seq, 77);
    assert_eq!(
        entries,
        vec![
            entry(b"a", &[4], 77),
            Entry { cmd: CommandData::remove(b"b".to_vec()), seq: 77 },
            entry(b"c", &[3], 77),
        ]
    );
    assert!(MemTable::from_log(Vec::new(), 1).is_empty());
}

#[test]
fn sequence_ids_never_go_down() {
    let mut mem = MemTable::from_log(vec![CommandData::set(b"a".to_vec(), vec![1])], 50);
    mem.insert_data(CommandData::set(b"b".to_vec(), vec![1]), 40, 10);
    mem.insert_data(CommandData::set(b"c".to_vec(), vec![1]), 60, 10);
    mem.insert_data(CommandData::set(b"d".to_vec(), vec![1]), i64::MIN, 10);
    let (frozen, last_seq) = mem.table_swap_and_sort().unwrap();
    assert_eq!(frozen.iter().map(|entry| entry.seq).collect::<Vec<_>>(), vec![50, 50, 60, 60]);
    assert_eq!(last_seq, 60);
    mem.insert_data(CommandData::set(b"a".to_vec(), vec![2]), 1, 10);
    let copy = mem.clone();
    mem.clear_frozen();
    let (active, _) = mem.table_swap_and_sort().unwrap();
    assert_eq!(active, vec![entry(b"a", &[2], 60)]);
    assert_eq!(copy.find(b"a"), Some(vec![2]));
}
