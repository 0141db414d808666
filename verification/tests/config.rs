use std::path::PathBuf;

use kip_db::config::{Config, Options};
use kip_db::version::edit::VersionEdit;
use kip_db::version::meta::TableMeta;
use kip_db::version::Version;
use kip_db::scope::Scope;

#[test]
fn a_new_config_has_the_default_options() {
    let config = Config::new(PathBuf::from("dir"), 0, 0);
    assert_eq!(config.path(), &PathBuf::from("dir"));
    let options = config.options();
    assert_eq!(options, Options::new());
    assert_eq!(options.minor_threshold_with_len, 2333);
    assert_eq!(options.wal_threshold, 20);
    assert_eq!(options.sparse_index_interval_block_size, 4);
    assert_eq!(options.sst_file_size, 24 * 1024 * 1024);
    assert_eq!(options.major_threshold_with_sst_size, 10);
    assert_eq!(options.major_select_file_size, 3);
    assert_eq!(options.level_sst_magnification, 10);
    assert_eq!(options.block_cache_size, 3200);
    assert_eq!(options.table_cache_size, 112);
    assert!(options.wal_enable);
    assert!(options.wal_async_put_enable);
}

#[test]
fn builders_set_one_option_each() {
    let config = Config::new(PathBuf::from("dir"), 1, 2)
        .dir_path(PathBuf::from("other"))
        .minor_threshold_with_len(1)
        .wal_threshold(2)
        .sparse_index_interval_block_size(3)
        .sst_file_size(4)
        .major_threshold_with_sst_size(5)
        .major_select_file_size(6)
        .level_sst_magnification(7)
        .block_cache_size(8)
        .table_cache_size(9)
        .wal_enable(false)
        .wal_async_put_enable(false);
    assert_eq!(config.path(), &PathBuf::from("other"));
    assert_eq!(
        config.options(),
        Options {
            minor_threshold_with_len: 1,
            wal_threshold: 2,
            sparse_index_interval_block_size: 3,
            sst_file_size: 4,
            major_threshold_with_sst_size: 5,
            major_select_file_size: 6,
            level_sst_magnification: 7,
            block_cache_size: 8,
            table_cache_size: 9,
            wal_enable: false,
            wal_async_put_enable: false,
        }
    );
    let one = Config::new(PathBuf::from("dir"), 0, 0).wal_enable(false);
    assert_eq!(one.options(), Options { wal_enable: false, ..Options::new() });
}

#[test]
fn gens_differ_from_call_to_call() {
    let config = Config::new(PathBuf::from("dir"), 0, 0);
    let first = config.create_gen_lazy();
    let second = config.create_gen_lazy();
    let third = config.create_gen();
    assert!(first < second);
    assert!(second < third);
    let batch = config.create_gen_with_size(5000);
    assert_eq!(batch.len(), 5000);
    assert!(batch.windows(2).all(|pair| pair[0] < pair[1]));
    assert!(third < batch[0]);
    assert!(config.create_gen_with_size(0).is_empty());
}

#[test]
fn level_capacity_grows_by_the_magnification() {
    let options = Options::new();
    assert!(!options.is_level_full(0, 9));
    assert!(options.is_level_full(0, 10));
    assert!(!options.is_level_full(1, 99));
    assert!(options.is_level_full(1, 100));
    assert!(!options.is_level_full(6, 9_999_999));
    assert!(options.is_level_full(6, 10_000_000));
    let none = Options { major_threshold_with_sst_size: 0, ..Options::new() };
    assert!(none.is_level_full(3, 0));
    let flat = Options { level_sst_magnification: 0, ..Options::new() };
    assert!(!flat.is_level_full(0, 9));
    assert!(flat.is_level_full(0, 10));
    assert!(flat.is_level_full(1, 0));
    let huge = Options { level_sst_magnification: usize::MAX, ..Options::new() };
    assert!(!huge.is_level_full(2, usize::MAX));
    let wide = Options { major_threshold_with_sst_size: usize::MAX, level_sst_magnification: 2, ..Options::new() };
    assert!(!wide.is_level_full(1, usize::MAX));
    assert!(wide.is_level_full(0, usize::MAX));
}

#[test]
fn a_version_tells_when_a_level_is_full() {
    let config = Config::new(PathBuf::from("dir"), 0, 0)
        .major_threshold_with_sst_size(2)
        .level_sst_magnification(2);
    let mut version = Version::new();
    let scope = |gen: i64, key: u8| Scope::from_range(gen, vec![key], vec![key]);
    let meta = TableMeta { size_of_disk: 1, len: 1 };
    version.apply(vec![VersionEdit::NewFile((vec![scope(1, 1)], 0), 0, meta)]).unwrap();
    assert!(!version.is_threshold_exceeded_major(&config, 0));
    version.apply(vec![VersionEdit::NewFile((vec![scope(2, 1)], 0), 0, meta)]).unwrap();
    assert!(version.is_threshold_exceeded_major(&config, 0));
    version
        .apply(vec![VersionEdit::NewFile((vec![scope(3, 1), scope(4, 2), scope(5, 3)], 1), 0, meta)])
        .unwrap();
    assert!(!version.is_threshold_exceeded_major(&config, 1));
    version.apply(vec![VersionEdit::NewFile((vec![scope(6, 4)], 1), 3, meta)]).unwrap();
    assert!(version.is_threshold_exceeded_major(&config, 1));
    assert!(!version.is_threshold_exceeded_major(&config, 2));
}
