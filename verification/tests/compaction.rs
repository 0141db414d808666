use std::path::PathBuf;

use kip_db::command::CommandData;
use kip_db::compactor::MajorCompaction;
use kip_db::config::Config;
use kip_db::error::KvsError;
use kip_db::lsm_kv::{GenSource, Installed, LsmStore, MinorCompaction};
use kip_db::run::Entry;
use kip_db::scope::Scope;
use kip_db::table::Table;
use kip_db::version::cleaner::{CleanTag, Cleaner};

/// A store with what else a running engine keeps: the cleaner, and the
/// gens of the table files that exist.
struct Engine {
    store: LsmStore,
    cleaner: Cleaner,
    files: Vec<i64>,
    majors: usize,
}

impl Engine {
    fn open(config: Config) -> Engine {
        let (store, tag) =
            LsmStore::open_with_config(config, None, Vec::new(), Vec::new()).unwrap();
        let mut engine = Engine { store, cleaner: Cleaner::new(), files: Vec::new(), majors: 0 };
        engine.tell_cleaner(tag);
        engine
    }

    fn tell_cleaner(&mut self, tag: CleanTag) {
        let version = match &tag {
            CleanTag::Add { version, .. } => *version,
            CleanTag::Clean(version) => *version,
        };
        assert!(self.cleaner.on_tag(tag).is_empty());
        // the version before the new one is retired at once: no reader holds it
        if version > 0 {
            for gen in self.cleaner.on_tag(CleanTag::Clean(version)) {
                self.delete_file(gen);
            }
        }
    }

    fn delete_file(&mut self, gen: i64) {
        match self.store.unload_table(gen) {
            Ok(_) => self.files.retain(|file| *file != gen),
            Err(_) => panic!("a table in use was to be deleted"),
        }
    }

    fn size_of(entries: &[Entry]) -> u64 {
        entries
            .iter()
            .map(|entry| {
                (13 + entry.cmd.get_key().len()
                    + entry.cmd.get_value().map(|value| value.len()).unwrap_or(0)) as u64
            })
            .sum()
    }

    fn minor(&mut self, job: MinorCompaction) {
        let gen = match job.gen {
            GenSource::Fresh(gen) => gen,
            GenSource::WalSwitch => self.store.config().create_gen_lazy(),
        };
        self.files.push(gen);
        let installed =
            self.store.install_minor(gen, Self::size_of(&job.values), job.enable_major).unwrap();
        self.after_install(installed);
    }

    fn after_install(&mut self, installed: Installed) {
        let Installed { clean_tag, compact } = installed;
        self.tell_cleaner(clean_tag);
        if let Some(level) = compact {
            self.major(level).unwrap();
        }
    }

    fn major(&mut self, level: usize) -> Result<bool, KvsError> {
        let plan: MajorCompaction = match self.store.major_compaction_sync(level) {
            Some(plan) => plan,
            None => return Ok(false),
        };
        let mut new_gens = Vec::new();
        for run in self.store.merge_major(&plan) {
            let gen = self.store.config().create_gen_lazy();
            let size = Self::size_of(&run);
            self.store.load_table(Table::new(gen, run, size)?)?;
            self.files.push(gen);
            new_gens.push(gen);
        }
        let installed = self.store.install_major(&plan, &new_gens)?;
        self.majors += 1;
        self.after_install(installed);
        Ok(true)
    }

    fn set(&mut self, key: &[u8], value: Vec<u8>) {
        if let Some(job) = self.store.set(key, value).minor {
            self.minor(job);
        }
    }

    fn remove(&mut self, key: &[u8]) -> Result<(), KvsError> {
        if let Some(job) = self.store.remove(key)?.minor {
            self.minor(job);
        }
        Ok(())
    }

    fn flush(&mut self) {
        while let Some(job) = self.store.flush() {
            self.minor(job);
        }
    }

    /// What a shutdown does: every gen that still waits is deleted.
    fn settle(&mut self) {
        for gen in self.cleaner.drain() {
            self.delete_file(gen);
        }
    }

    fn level_gens(&self, level: usize) -> Vec<i64> {
        self.store.version().level_scopes(level).iter().map(Scope::get_gen).collect()
    }

    fn files_that_hold(&self, key: &[u8]) -> usize {
        self.files
            .iter()
            .filter(|gen| {
                self.store.table_loader().get(**gen).map(|table| table.query(key).is_some())
                    == Some(true)
            })
            .count()
    }
}

fn config() -> Config {
    Config::new(PathBuf::from("engine"), 0, 0).wal_enable(false)
}

#[test]
fn five_thousand_keys_lead_to_a_major_compaction() {
    let mut engine =
        Engine::open(config().minor_threshold_with_len(1000).major_threshold_with_sst_size(4));
    let value = |i: u64| [i.to_le_bytes().to_vec(), b"Stray birds of summer".to_vec()].concat();
    for i in 0..5000u64 {
        engine.set(&i.to_le_bytes(), value(i));
    }
    engine.flush();
    for i in 0..5000u64 {
        assert_eq!(engine.store.get(&i.to_le_bytes()), Some(value(i)));
    }
    assert!(engine.majors >= 1);
    assert!(engine.store.version().level_len(1) > 0);
    assert_eq!(engine.store.version().level_len(0), 2);
    assert_eq!(engine.store.len().unwrap(), 5000);
    // the merged tables are gone, the others are all there
    engine.settle();
    let named: usize = (0..7).map(|level| engine.store.version().level_len(level)).sum();
    assert_eq!(engine.files.len(), named);
    assert_eq!(engine.store.table_loader().len(), named);
    let sizes: u64 = engine
        .files
        .iter()
        .map(|gen| engine.store.table_loader().get(*gen).unwrap().size_of_disk())
        .sum();
    assert_eq!(engine.store.size_of_disk(), sizes);
}

#[test]
fn one_key_overwritten_ends_as_one_entry_in_the_deepest_level() {
    let mut engine = Engine::open(config());
    for i in 0..1000u32 {
        engine.set(b"same", i.to_le_bytes().to_vec());
        if i % 250 == 249 {
            engine.flush();
        }
    }
    assert_eq!(engine.store.version().level_len(0), 4);
    assert_eq!(engine.store.len().unwrap(), 4);
    assert_eq!(engine.store.get(b"same"), Some(999u32.to_le_bytes().to_vec()));
    for level in 0..6 {
        while engine.store.version().level_len(level) > 0 {
            assert!(engine.major(level).unwrap());
            assert_eq!(engine.store.get(b"same"), Some(999u32.to_le_bytes().to_vec()));
        }
    }
    assert!(!engine.major(6).unwrap());
    engine.settle();
    assert_eq!(engine.store.len().unwrap(), 1);
    assert_eq!(engine.store.version().level_len(6), 1);
    assert_eq!(engine.files.len(), 1);
    assert_eq!(engine.store.get(b"same"), Some(999u32.to_le_bytes().to_vec()));
}

#[test]
fn a_removed_key_leaves_every_file() {
    let mut engine = Engine::open(config());
    engine.set(b"K", vec![1]);
    engine.set(b"other", vec![2]);
    engine.flush();
    assert_eq!(engine.level_gens(0).len(), 1);
    engine.remove(b"K").unwrap();
    assert_eq!(engine.store.get(b"K"), None);
    engine.flush();
    assert_eq!(engine.store.get(b"K"), None);
    assert_eq!(engine.files_that_hold(b"K"), 2);
    for level in 0..6 {
        while engine.store.version().level_len(level) > 0 {
            assert!(engine.major(level).unwrap());
            assert_eq!(engine.store.get(b"K"), None);
            assert_eq!(engine.store.get(b"other"), Some(vec![2]));
        }
    }
    engine.settle();
    assert_eq!(engine.files_that_hold(b"K"), 0);
    assert_eq!(engine.files_that_hold(b"other"), 1);
    assert_eq!(engine.store.version().level_len(6), 1);
    assert_eq!(engine.store.len().unwrap(), 1);
    assert_eq!(engine.remove(b"K").unwrap_err(), KvsError::KeyNotFound);
}

#[test]
fn a_removal_stays_while_a_deeper_level_holds_the_key() {
    let mut engine = Engine::open(config());
    engine.set(b"K", vec![1]);
    engine.flush();
    // the first table goes down to level 3
    for level in 0..3 {
        assert!(engine.major(level).unwrap());
    }
    assert_eq!(engine.store.version().level_len(3), 1);
    engine.remove(b"K").unwrap();
    engine.flush();
    // the removal goes down to level 2: it must stay, level 3 holds the key
    for level in 0..2 {
        assert!(engine.major(level).unwrap());
        assert_eq!(engine.store.get(b"K"), None);
    }
    assert_eq!(engine.store.version().level_len(2), 1);
    engine.settle();
    assert_eq!(engine.files_that_hold(b"K"), 2);
    // merged into level 3 it hides nothing below any more and goes
    assert!(engine.major(2).unwrap());
    assert_eq!(engine.store.get(b"K"), None);
    engine.settle();
    assert_eq!(engine.files_that_hold(b"K"), 0);
    assert!(engine.files.is_empty());
    assert!(engine.store.is_empty());
}

#[test]
fn merged_tables_are_cut_to_size() {
    let mut engine = Engine::open(config().sst_file_size(100).major_select_file_size(2));
    for round in 0..2u8 {
        for i in 0..10u8 {
            engine.set(&[i], vec![round; 17]);
        }
        engine.flush();
    }
    let plan = engine.store.major_compaction_sync(0).unwrap();
    let runs = engine.store.merge_major(&plan);
    // an entry counts 13 + 1 + 17 bytes: four of them reach the limit
    assert_eq!(runs.iter().map(|run| run.len()).collect::<Vec<_>>(), vec![4, 4, 2]);
    for (place, entry) in runs.iter().flatten().enumerate() {
        assert_eq!(entry.cmd, CommandData::set(vec![place as u8], vec![1; 17]));
    }
    assert!(engine.major(0).unwrap());
    assert_eq!(engine.store.version().level_len(1), 3);
    assert_eq!(engine.store.len().unwrap(), 10);
    for i in 0..10u8 {
        assert_eq!(engine.store.get(&[i]), Some(vec![1; 17]));
    }
}

#[test]
fn a_major_compaction_needs_its_new_tables_loaded() {
    let mut engine = Engine::open(config());
    engine.set(b"a", vec![1]);
    engine.flush();
    let plan = engine.store.major_compaction_sync(0).unwrap();
    assert_eq!(engine.store.install_major(&plan, &vec![77]).unwrap_err(), KvsError::Internal);
    assert_eq!(engine.store.version().level_len(0), 1);
    let last = MajorCompaction { level: 6, upper: Vec::new(), lower: Vec::new(), index: 0 };
    assert!(engine.store.merge_major(&last).is_empty());
    assert_eq!(engine.store.install_major(&last, &Vec::new()).unwrap_err(), KvsError::Internal);
}

#[test]
fn a_store_built_by_its_own_operations_is_tidy() {
    let mut engine = Engine::open(config().major_threshold_with_sst_size(2));
    assert!(engine.store.is_tidy());
    for i in 0..40u8 {
        engine.set(&[i], vec![i, 1]);
        if i % 8 == 7 {
            engine.flush();
            assert!(engine.store.is_tidy());
        }
    }
    assert!(engine.majors > 0);
    engine.settle();
    assert!(engine.store.is_tidy());
}

#[test]
fn a_version_whose_scopes_are_not_those_of_its_tables_is_not_tidy() {
    let mut engine = Engine::open(config());
    engine.set(b"a", vec![1]);
    engine.set(b"c", vec![1]);
    engine.flush();
    let gen = engine.level_gens(0)[0];
    // an edit that names the table under a wider scope
    let wider = kip_db::version::edit::VersionEdit::NewFile(
        (vec![Scope::from_range(gen, b"a".to_vec(), b"z".to_vec())], 3),
        0,
        kip_db::version::meta::TableMeta { size_of_disk: 0, len: 0 },
    );
    engine.store.install(vec![wider]).unwrap();
    assert!(!engine.store.is_tidy());
}

#[test]
fn a_choice_that_leaves_newer_tables_with_its_keys_is_alone() {
    let mut engine = Engine::open(config().major_select_file_size(1));
    // three tables of level 0, all of which hold the key "k"
    for round in 0..3u8 {
        engine.set(b"k", vec![round + 1]);
        engine.set(&[round], vec![round + 1]);
        engine.flush();
    }
    let plan = engine.store.major_compaction_sync(0).unwrap();
    assert_eq!(plan.upper.len(), 1);
    assert_eq!(plan.upper[0].get_gen(), engine.level_gens(0)[0]);
    // the oldest table goes down, and the newer ones are read before it
    assert!(engine.store.is_alone(&plan));
    assert!(engine.major(0).unwrap());
    assert_eq!(engine.level_gens(0).len(), 2);
    assert_eq!(engine.store.get(b"k"), Some(vec![3]));
    // a choice of all tables of the level is alone
    let mut all = Engine::open(config().major_select_file_size(8));
    for round in 0..3u8 {
        all.set(b"k", vec![round + 1]);
        all.flush();
    }
    let plan = all.store.major_compaction_sync(0).unwrap();
    assert_eq!(plan.upper.len(), 3);
    assert!(all.store.is_alone(&plan));
    assert!(all.major(0).unwrap());
    assert_eq!(all.store.get(b"k"), Some(vec![3]));
    let last = MajorCompaction { level: 6, upper: Vec::new(), lower: Vec::new(), index: 0 };
    assert!(!all.store.is_alone(&last));
}

#[test]
fn a_choice_that_leaves_an_older_table_with_its_keys_is_not_alone() {
    let mut engine = Engine::open(config());
    for round in 0..3u8 {
        engine.set(b"k", vec![round + 1]);
        engine.flush();
    }
    // the newest table alone is to go down
    let newest = engine.store.version().level_scopes(0)[2].clone();
    let plan = MajorCompaction { level: 0, upper: vec![newest], lower: Vec::new(), index: 0 };
    assert!(!engine.store.is_alone(&plan));
    // carried out all the same, it lets an older value come back
    let mut new_gens = Vec::new();
    for run in engine.store.merge_major(&plan) {
        let gen = engine.store.config().create_gen_lazy();
        let size = Engine::size_of(&run);
        engine.store.load_table(Table::new(gen, run, size).unwrap()).unwrap();
        new_gens.push(gen);
    }
    engine.store.install_major(&plan, &new_gens).unwrap();
    assert_eq!(engine.store.get(b"k"), Some(vec![2]));
}

#[test]
fn a_choice_that_skips_an_overlapping_table_of_the_next_level_is_not_alone() {
    let mut engine = Engine::open(config());
    engine.set(b"b", vec![1]);
    engine.set(b"y", vec![1]);
    engine.flush();
    assert!(engine.major(0).unwrap());
    assert_eq!(engine.level_gens(1).len(), 1);
    engine.set(b"c", vec![2]);
    engine.flush();
    let upper = engine.store.version().level_scopes(0).clone();
    assert_eq!(upper.len(), 1);
    // the planned choice takes the table of the next level along
    let plan = engine.store.major_compaction_sync(0).unwrap();
    assert_eq!(plan.lower.len(), 1);
    assert!(engine.store.is_alone(&plan));
    // a choice that leaves it where it is overlaps it
    let short = MajorCompaction { level: 0, upper, lower: Vec::new(), index: 0 };
    assert!(!engine.store.is_alone(&short));
}

#[test]
fn a_new_cleaner_hands_out_nothing() {
    let mut cleaner = Cleaner::new();
    assert!(cleaner.clean(1).is_empty());
    assert!(cleaner.drain().is_empty());
}

#[test]
fn the_counters_follow_the_tables_through_compactions() {
    let mut engine = Engine::open(config().major_threshold_with_sst_size(2));
    assert!(engine.store.is_counted());
    for i in 0..40u8 {
        engine.set(&[i % 16], vec![i, 1]);
        if i % 8 == 7 {
            engine.flush();
            assert!(engine.store.is_counted());
        }
    }
    assert!(engine.majors > 0);
    engine.settle();
    assert!(engine.store.is_counted());
    let sizes: u64 = engine
        .files
        .iter()
        .map(|gen| engine.store.table_loader().get(*gen).unwrap().size_of_disk())
        .sum();
    assert_eq!(engine.store.size_of_disk(), sizes);
    // an edit with counters of its own making spoils them
    let gen = engine.store.config().create_gen_lazy();
    let run = vec![Entry { cmd: CommandData::set(vec![200], vec![1]), seq: 1 }];
    engine.store.load_table(Table::new(gen, run, 14).unwrap()).unwrap();
    let edit = kip_db::version::edit::VersionEdit::NewFile(
        (vec![Scope::from_range(gen, vec![200], vec![200])], 0),
        0,
        kip_db::version::meta::TableMeta { size_of_disk: 15, len: 1 },
    );
    engine.store.install(vec![edit]).unwrap();
    assert!(!engine.store.is_counted());
}

#[test]
fn a_level_0_that_names_a_table_twice_is_not_tidy() {
    let mut engine = Engine::open(config());
    engine.set(b"a", vec![1]);
    engine.flush();
    assert!(engine.store.is_tidy());
    let scope = engine.store.version().level_scopes(0)[0].clone();
    let again = kip_db::version::edit::VersionEdit::NewFile(
        (vec![scope], 0),
        0,
        kip_db::version::meta::TableMeta { size_of_disk: 0, len: 0 },
    );
    engine.store.install(vec![again]).unwrap();
    assert_eq!(engine.level_gens(0).len(), 2);
    assert!(!engine.store.is_tidy());
}

#[test]
fn a_planned_choice_names_each_of_its_tables_once() {
    let mut engine = Engine::open(config().major_select_file_size(2));
    for round in 0..4u8 {
        engine.set(&[round], vec![round + 1]);
        engine.set(b"k", vec![round + 1]);
        engine.flush();
    }
    let plan = engine.store.major_compaction_sync(0).unwrap();
    let level = engine.level_gens(0);
    let mut taken: Vec<i64> = plan.upper.iter().map(Scope::get_gen).collect();
    assert_eq!(taken, level[..2].to_vec());
    taken.dedup();
    assert_eq!(taken.len(), 2);
    assert!(engine.store.is_alone(&plan));
}

/// Carries out a major compaction by this choice.
fn merge_and_install(engine: &mut Engine, plan: &MajorCompaction) {
    let mut new_gens = Vec::new();
    for run in engine.store.merge_major(plan) {
        let gen = engine.store.config().create_gen_lazy();
        let size = Engine::size_of(&run);
        engine.store.load_table(Table::new(gen, run, size).unwrap()).unwrap();
        engine.files.push(gen);
        new_gens.push(gen);
    }
    let installed = engine.store.install_major(plan, &new_gens).unwrap();
    engine.tell_cleaner(installed.clean_tag);
}

/// A store in which the usual choice for level 0 would take the newest
/// table and leave an older one that holds the key "z".
fn store_with_a_hidden_table() -> Engine {
    let mut engine = Engine::open(config().major_select_file_size(1));
    engine.set(b"b", vec![1]);
    engine.set(b"y", vec![1]);
    engine.flush();
    assert!(engine.major(0).unwrap());
    assert_eq!(engine.level_gens(1).len(), 1);
    engine.set(b"b", vec![2]);
    engine.flush();
    engine.set(b"z", vec![2]);
    engine.flush();
    engine.set(b"c", vec![3]);
    engine.set(b"z", vec![3]);
    engine.flush();
    assert_eq!(engine.level_gens(0).len(), 3);
    engine
}

#[test]
fn the_usual_choice_may_hide_an_older_table() {
    let mut engine = store_with_a_hidden_table();
    let level = engine.level_gens(0);
    let plan = engine.store.major_compaction_sync(0).unwrap();
    let taken: Vec<i64> = plan.upper.iter().map(Scope::get_gen).collect();
    assert_eq!(taken, vec![level[0], level[2]]);
    assert_eq!(plan.lower.len(), 1);
    assert!(!engine.store.is_alone(&plan));
    merge_and_install(&mut engine, &plan);
    // the older value is back
    assert_eq!(engine.store.get(b"z"), Some(vec![2]));
}

#[test]
fn the_choice_that_hides_nothing_keeps_every_read() {
    let mut engine = store_with_a_hidden_table();
    let level = engine.level_gens(0);
    let plan = engine.store.major_compaction_alone(0).unwrap();
    let taken: Vec<i64> = plan.upper.iter().map(Scope::get_gen).collect();
    assert_eq!(taken, level);
    assert!(engine.store.is_alone(&plan));
    merge_and_install(&mut engine, &plan);
    assert_eq!(engine.store.get(b"z"), Some(vec![3]));
    assert_eq!(engine.store.get(b"b"), Some(vec![2]));
    assert_eq!(engine.store.get(b"c"), Some(vec![3]));
    assert_eq!(engine.store.get(b"y"), Some(vec![1]));
    assert!(engine.level_gens(0).is_empty());
    assert!(engine.store.is_tidy());
    assert!(engine.store.is_counted());
    // where the usual choice hides nothing, it is the choice
    let mut plain = Engine::open(config().major_select_file_size(1));
    for round in 0..3u8 {
        plain.set(b"k", vec![round + 1]);
        plain.flush();
    }
    let usual = plain.store.major_compaction_sync(0).unwrap();
    let alone = plain.store.major_compaction_alone(0).unwrap();
    assert_eq!(alone.upper.len(), 1);
    assert_eq!(alone.upper[0].get_gen(), usual.upper[0].get_gen());
    assert!(plain.store.major_compaction_alone(6).is_none());
}

#[test]
fn only_edits_that_would_be_installed_can_be_installed() {
    let mut engine = Engine::open(config());
    engine.set(b"a", vec![1]);
    engine.flush();
    let gen = engine.store.config().create_gen_lazy();
    let edits = vec![kip_db::version::edit::VersionEdit::NewFile(
        (vec![Scope::from_range(gen, vec![7], vec![7])], 1),
        0,
        kip_db::version::meta::TableMeta { size_of_disk: 14, len: 1 },
    )];
    // the table that the edit names is not loaded yet
    assert!(!engine.store.can_install(&edits));
    let run = vec![Entry { cmd: CommandData::set(vec![7], vec![1]), seq: 1 }];
    engine.store.load_table(Table::new(gen, run, 14).unwrap()).unwrap();
    assert!(engine.store.can_install(&edits));
    assert_eq!(engine.level_gens(1).len(), 0);
    engine.store.install(edits).unwrap();
    assert_eq!(engine.level_gens(1), vec![gen]);
    assert!(engine.store.is_counted());
}

#[test]
fn a_level_can_stay_over_its_capacity_when_nothing_is_asked() {
    // every level holds one table at most, a compaction takes one table,
    // and every entry becomes a table of its own
    let mut engine = Engine::open(
        config()
            .major_threshold_with_sst_size(1)
            .level_sst_magnification(1)
            .major_select_file_size(1)
            .sst_file_size(1),
    );
    for i in 0..8u8 {
        engine.set(&[i], vec![i + 1]);
    }
    engine.flush();
    assert!(engine.majors > 1);
    assert!(engine.store.flush().is_none());
    // level 0 was merged into eight tables of level 1; the compaction of
    // level 1 that followed took one of them, and went on downwards
    assert_eq!(engine.store.version().level_len(0), 0);
    assert_eq!(engine.store.version().level_len(1), 7);
    assert!(engine.store.version().is_threshold_exceeded_major(engine.store.config(), 1));
    for i in 0..8u8 {
        assert_eq!(engine.store.get(&[i]), Some(vec![i + 1]));
    }
    assert!(engine.store.is_tidy());
    assert!(engine.store.is_counted());
}
