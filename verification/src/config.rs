//! The options of a store, and its source of gens.

use vstd::prelude::*;
use vstd::arithmetic::power::{lemma_pow_increases, pow};
use std::path::PathBuf;
use snowflake::SnowflakeIdGenerator;

verus! {

/// The options that a store has when none are given.
pub const DEFAULT_MINOR_THRESHOLD_WITH_LEN: usize = 2333;

pub const DEFAULT_SPARSE_INDEX_INTERVAL_BLOCK_SIZE: u64 = 4;

pub const DEFAULT_SST_FILE_SIZE: usize = 24 * 1024 * 1024;

pub const DEFAULT_MAJOR_THRESHOLD_WITH_SST_SIZE: usize = 10;

pub const DEFAULT_MAJOR_SELECT_FILE_SIZE: usize = 3;

pub const DEFAULT_LEVEL_SST_MAGNIFICATION: usize = 10;

pub const DEFAULT_BLOCK_CACHE_SIZE: usize = 3200;

pub const DEFAULT_TABLE_CACHE_SIZE: usize = 112;

pub const DEFAULT_WAL_THRESHOLD: usize = 20;

/// `std::path::PathBuf`, carried along as a value of which nothing is
/// known.
#[verifier::external_type_specification]
#[verifier::external_body]
pub struct ExPathBuf(std::path::PathBuf);

/// `snowflake::SnowflakeIdGenerator`, carried along as a value of which
/// nothing is known.
#[verifier::external_type_specification]
#[verifier::external_body]
pub struct ExSnowflakeIdGenerator(snowflake::SnowflakeIdGenerator);

/// `parking_lot::RawMutex`, the lock inside a `parking_lot::Mutex`.
#[verifier::external_type_specification]
#[verifier::external_body]
pub struct ExRawMutex(parking_lot::RawMutex);

/// `lock_api::Mutex`, which `parking_lot::Mutex` is, carried along as a
/// value of which nothing is known.
#[verifier::external_type_specification]
#[verifier::external_body]
#[verifier::reject_recursive_types(R)]
#[verifier::reject_recursive_types(T)]
pub struct ExMutex<R, T: ?Sized>(parking_lot::lock_api::Mutex<R, T>);

/// The numbers and switches that steer a store.
#[derive(Clone, Copy, Debug, PartialEq, Eq, Structural)]
pub struct Options {
    /// How many segments of the write-ahead log are kept.
    pub wal_threshold: usize,
    /// How many blocks lie between two entries of a table's sparse index.
    pub sparse_index_interval_block_size: u64,
    /// The size in bytes at which a table file is closed.
    pub sst_file_size: usize,
    /// How many entries the table in memory takes before it is frozen.
    pub minor_threshold_with_len: usize,
    /// How many tables level 0 takes before it is compacted.
    pub major_threshold_with_sst_size: usize,
    /// How many tables one major compaction picks from its level.
    pub major_select_file_size: usize,
    /// By how much the capacity grows from one level to the next.
    pub level_sst_magnification: usize,
    /// How many decoded blocks are cached.
    pub block_cache_size: usize,
    /// How many open tables are cached.
    pub table_cache_size: usize,
    /// Whether writes go to the write-ahead log.
    pub wal_enable: bool,
    /// Whether a write returns before its log record is written.
    pub wal_async_put_enable: bool,
}

/// The number of tables at which a level is full:
/// `major_threshold_with_sst_size * level_sst_magnification ^ level`.
pub open spec fn level_capacity(options: Options, level: nat) -> int {
    options.major_threshold_with_sst_size * pow(options.level_sst_magnification as int, level)
}

impl Options {
    /// The options of a store that was given none.
    pub fn new() -> (r: Options)
        ensures
            r == default_options(),
    {
        Options {
            minor_threshold_with_len: DEFAULT_MINOR_THRESHOLD_WITH_LEN,
            wal_threshold: DEFAULT_WAL_THRESHOLD,
            sparse_index_interval_block_size: DEFAULT_SPARSE_INDEX_INTERVAL_BLOCK_SIZE,
            sst_file_size: DEFAULT_SST_FILE_SIZE,
            major_threshold_with_sst_size: DEFAULT_MAJOR_THRESHOLD_WITH_SST_SIZE,
            major_select_file_size: DEFAULT_MAJOR_SELECT_FILE_SIZE,
            level_sst_magnification: DEFAULT_LEVEL_SST_MAGNIFICATION,
            block_cache_size: DEFAULT_BLOCK_CACHE_SIZE,
            table_cache_size: DEFAULT_TABLE_CACHE_SIZE,
            wal_enable: true,
            wal_async_put_enable: true,
        }
    }

    /// Whether a level that holds `tables` tables has reached its capacity.
    pub fn is_level_full(&self, level: usize, tables: usize) -> (r: bool)
        ensures
            r == (tables >= level_capacity(*self, level as nat)),
    {
        let threshold = self.major_threshold_with_sst_size;
        let base = self.level_sst_magnification;
        if threshold == 0 {
            assert(level_capacity(*self, level as nat) == 0) by (nonlinear_arith)
                requires
                    level_capacity(*self, level as nat) == 0 * pow(
                        self.level_sst_magnification as int,
                        level as nat,
                    ),
            ;
            return true;
        }
        let mut power: usize = 1;
        let mut done: usize = 0;
        assert(pow(base as int, 0) == 1) by {
            reveal(pow);
        }
        while done < level
            invariant
                done <= level,
                power == pow(base as int, done as nat),
                threshold == self.major_threshold_with_sst_size,
                base == self.level_sst_magnification,
                threshold >= 1,
            decreases level - done,
        {
            assert(pow(base as int, (done + 1) as nat) == base * pow(base as int, done as nat)) by {
                reveal(pow);
            }
            match power.checked_mul(base) {
                Some(next) => {
                    assert(next == base * power) by (nonlinear_arith)
                        requires
                            next == power * base,
                    ;
                    power = next;
                },
                None => {
                    proof {
                        assert(base * power == power * base) by (nonlinear_arith);
                        assert(base >= 1) by (nonlinear_arith)
                            requires
                                power * base > usize::MAX,
                                power >= 0,
                                base >= 0,
                        ;
                        lemma_pow_increases(base as nat, (done + 1) as nat, level as nat);
                        let whole = pow(base as int, level as nat);
                        assert(threshold * whole >= whole) by (nonlinear_arith)
                            requires
                                threshold >= 1,
                                whole >= 0,
                        ;
                    }
                    return false;
                },
            }
            done += 1;
        }
        match threshold.checked_mul(power) {
            Some(capacity) => tables >= capacity,
            None => false,
        }
    }
}

/// The options that `Options::new` gives.
pub open spec fn default_options() -> Options {
    Options {
        minor_threshold_with_len: 2333,
        wal_threshold: 20,
        sparse_index_interval_block_size: 4,
        sst_file_size: 25165824,
        major_threshold_with_sst_size: 10,
        major_select_file_size: 3,
        level_sst_magnification: 10,
        block_cache_size: 3200,
        table_cache_size: 112,
        wal_enable: true,
        wal_async_put_enable: true,
    }
}

/// A configuration as a value: the directory and the options.
pub struct ConfigView {
    pub dir_path: PathBuf,
    pub options: Options,
}

/// The configuration of a store: its directory, its options, and the
/// generator from which it takes gens and sequence ids.
#[derive(Debug)]
pub struct Config {
    dir_path: PathBuf,
    options: Options,
    gen_generator: parking_lot::Mutex<SnowflakeIdGenerator>,
}

impl View for Config {
    type V = ConfigView;

    closed spec fn view(&self) -> ConfigView {
        ConfigView { dir_path: self.dir_path, options: self.options }
    }
}

/// Calls `SnowflakeIdGenerator::new` and puts the generator behind a
/// `parking_lot::Mutex`. The generator starts from the time at which it is
/// made, so nothing is stated of it. It reads the clock of the system and
/// panics where that clock stands before the year 1970.
#[verifier::external_body]
fn new_gen_generator(machine_id: i32, node_id: i32) -> parking_lot::Mutex<SnowflakeIdGenerator> {
    parking_lot::Mutex::new(SnowflakeIdGenerator::new(machine_id, node_id))
}

impl Config {
    /// A configuration with the default options for the store in `path`,
    /// whose gens carry the given machine and node ids.
    pub fn new(path: PathBuf, machine_id: i32, node_id: i32) -> (r: Config)
        ensures
            r@ == (ConfigView { dir_path: path, options: default_options() }),
    {
        Config {
            dir_path: path,
            options: Options::new(),
            gen_generator: new_gen_generator(machine_id, node_id),
        }
    }

    /// The directory of the store.
    pub fn path(&self) -> (r: &PathBuf)
        ensures
            *r == self@.dir_path,
    {
        &self.dir_path
    }

    /// The options of the store.
    pub fn options(&self) -> (r: Options)
        ensures
            r == self@.options,
    {
        self.options
    }

    /// The same configuration for the store in another directory.
    pub fn dir_path(self, dir_path: PathBuf) -> (r: Self)
        ensures
            r@ == (ConfigView { dir_path, ..self@ }),
    {
        let mut config = self;
        config.dir_path = dir_path;
        config
    }

    /// The same configuration with another number of entries at which the
    /// table in memory is frozen.
    pub fn minor_threshold_with_len(self, minor_threshold_with_len: usize) -> (r: Self)
        ensures
            r@ == (ConfigView {
                options: Options { minor_threshold_with_len, ..self@.options },
                ..self@
            }),
    {
        let mut config = self;
        config.options.minor_threshold_with_len = minor_threshold_with_len;
        config
    }

    /// The same configuration with another number of log segments to keep.
    pub fn wal_threshold(self, wal_threshold: usize) -> (r: Self)
        ensures
            r@ == (ConfigView { options: Options { wal_threshold, ..self@.options }, ..self@ }),
    {
        let mut config = self;
        config.options.wal_threshold = wal_threshold;
        config
    }

    /// The same configuration with another distance between the entries of
    /// a sparse index.
    pub fn sparse_index_interval_block_size(self, sparse_index_interval_block_size: u64) -> (r:
        Self)
        ensures
            r@ == (ConfigView {
                options: Options { sparse_index_interval_block_size, ..self@.options },
                ..self@
            }),
    {
        let mut config = self;
        config.options.sparse_index_interval_block_size = sparse_index_interval_block_size;
        config
    }

    /// The same configuration with another size at which a table file is
    /// closed.
    pub fn sst_file_size(self, sst_file_size: usize) -> (r: Self)
        ensures
            r@ == (ConfigView { options: Options { sst_file_size, ..self@.options }, ..self@ }),
    {
        let mut config = self;
        config.options.sst_file_size = sst_file_size;
        config
    }

    /// The same configuration with another number of tables at which level
    /// 0 is full.
    pub fn major_threshold_with_sst_size(self, major_threshold_with_sst_size: usize) -> (r: Self)
        ensures
            r@ == (ConfigView {
                options: Options { major_threshold_with_sst_size, ..self@.options },
                ..self@
            }),
    {
        let mut config = self;
        config.options.major_threshold_with_sst_size = major_threshold_with_sst_size;
        config
    }

    /// The same configuration with another number of tables that a major
    /// compaction picks.
    pub fn major_select_file_size(self, major_select_file_size: usize) -> (r: Self)
        ensures
            r@ == (ConfigView {
                options: Options { major_select_file_size, ..self@.options },
                ..self@
            }),
    {
        let mut config = self;
        config.options.major_select_file_size = major_select_file_size;
        config
    }

    /// The same configuration with another factor by which the capacity
    /// grows from level to level.
    pub fn level_sst_magnification(self, level_sst_magnification: usize) -> (r: Self)
        ensures
            r@ == (ConfigView {
                options: Options { level_sst_magnification, ..self@.options },
                ..self@
            }),
    {
        let mut config = self;
        config.options.level_sst_magnification = level_sst_magnification;
        config
    }

    /// The same configuration with another number of cached blocks.
    pub fn block_cache_size(self, cache_size: usize) -> (r: Self)
        ensures
            r@ == (ConfigView {
                options: Options { block_cache_size: cache_size, ..self@.options },
                ..self@
            }),
    {
        let mut config = self;
        config.options.block_cache_size = cache_size;
        config
    }

    /// The same configuration with another number of cached tables.
    pub fn table_cache_size(self, cache_size: usize) -> (r: Self)
        ensures
            r@ == (ConfigView {
                options: Options { table_cache_size: cache_size, ..self@.options },
                ..self@
            }),
    {
        let mut config = self;
        config.options.table_cache_size = cache_size;
        config
    }

    /// Takes the next gen from the generator by
    /// `SnowflakeIdGenerator::lazy_generate`, under the lock. The gen depends
    /// on when the generator was made and on how often it was asked, so
    /// nothing is stated of it.
    #[verifier::external_body]
    pub fn create_gen_lazy(&self) -> i64 {
        self.gen_generator.lock().lazy_generate()
    }

    /// Takes the next gen from the generator by
    /// `SnowflakeIdGenerator::generate`, under the lock. The gen depends on
    /// the clock, so nothing is stated of it. After every 4096 gens the
    /// call reads the clock of the system, waits until it has moved on by a
    /// millisecond where it has not, and panics where it stands before the
    /// year 1970.
    #[verifier::external_body]
    pub fn create_gen(&self) -> i64 {
        self.gen_generator.lock().generate()
    }

    /// Takes `size` gens from the generator, one after the other. The lock
    /// of the generator is taken for each gen and given back after it, so
    /// a gen that another caller takes meanwhile may lie between two of
    /// them. Of the gens themselves nothing is stated: they depend on when
    /// the generator was made and on how often it was asked.
    pub fn create_gen_with_size(&self, size: usize) -> (r: Vec<i64>)
        ensures
            r.len() == size,
    {
        let mut vec_gen: Vec<i64> = Vec::with_capacity(size);
        let mut taken: usize = 0;
        while taken < size
            invariant
                taken <= size,
                vec_gen.len() == taken,
            decreases size - taken,
        {
            vec_gen.push(self.create_gen_lazy());
            taken += 1;
        }
        vec_gen
    }

    /// The same configuration with the write-ahead log switched on or off.
    pub fn wal_enable(self, wal_enable: bool) -> (r: Self)
        ensures
            r@ == (ConfigView { options: Options { wal_enable, ..self@.options }, ..self@ }),
    {
        let mut config = self;
        config.options.wal_enable = wal_enable;
        config
    }

    /// The same configuration with log records written before or while a
    /// write returns.
    pub fn wal_async_put_enable(self, wal_async_put_enable: bool) -> (r: Self)
        ensures
            r@ == (ConfigView {
                options: Options { wal_async_put_enable, ..self@.options },
                ..self@
            }),
    {
        let mut config = self;
        config.options.wal_async_put_enable = wal_async_put_enable;
        config
    }
}

} // verus!
