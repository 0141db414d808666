use kip_db::error::KvsError;
use kip_db::scope::Scope;
use kip_db::version::cleaner::CleanTag;
use kip_db::version::edit::VersionEdit;
use kip_db::version::meta::TableMeta;
use kip_db::log::{closing_record, frame};
use kip_db::version::codec::encode_edits;
use kip_db::version::{is_complete_segment, snapshot_gen, SnapshotGen, Version};

fn scope(gen: i64, start: &[u8], end: &[u8]) -> Scope {
    Scope::from_range(gen, start.to_vec(), end.to_vec())
}

fn gens_of(version: &Version, level: usize) -> Vec<i64> {
    version.level_scopes(level).iter().map(Scope::get_gen).collect()
}

fn meta(size_of_disk: u64, len: usize) -> TableMeta {
    TableMeta { size_of_disk, len }
}

#[test]
fn new_version_is_empty() {
    let version = Version::new();
    assert_eq!(version.version_num(), 0);
    assert_eq!(version.len(), 0);
    assert_eq!(version.size_of_disk(), 0);
    assert!(version.is_empty());
    for level in 0..7 {
        assert_eq!(version.level_len(level), 0);
    }
}

#[test]
fn new_file_at_level_0_is_pushed_sorted_by_gen() {
    let mut version = Version::new();
    let tag = version
        .apply(vec![VersionEdit::NewFile(
            (vec![scope(3, b"a", b"c"), scope(1, b"b", b"d"), scope(2, b"a", b"z")], 0),
            0,
            meta(30, 3),
        )])
        .unwrap();
    assert_eq!(gens_of(&version, 0), vec![1, 2, 3]);
    assert_eq!(version.version_num(), 1);
    assert_eq!(version.len(), 3);
    assert_eq!(version.size_of_disk(), 30);
    match tag {
        CleanTag::Add { version: number, gens } => {
            assert_eq!(number, 1);
            assert!(gens.is_empty());
        }
        CleanTag::Clean(_) => panic!("apply announces deleted gens"),
    }
    version
        .apply(vec![VersionEdit::NewFile((vec![scope(0, b"k", b"m")], 0), 5, meta(1, 1))])
        .unwrap();
    assert_eq!(gens_of(&version, 0), vec![1, 2, 3, 0]);
    assert_eq!(version.version_num(), 2);
}

#[test]
fn new_file_at_level_1_goes_to_its_index() {
    let mut version = Version::new();
    version
        .apply(vec![VersionEdit::NewFile(
            (vec![scope(10, b"a", b"b"), scope(11, b"x", b"z")], 1),
            0,
            meta(2, 2),
        )])
        .unwrap();
    version
        .apply(vec![VersionEdit::NewFile(
            (vec![scope(21, b"g", b"h"), scope(20, b"d", b"e")], 1),
            1,
            meta(2, 2),
        )])
        .unwrap();
    assert_eq!(gens_of(&version, 1), vec![10, 20, 21, 11]);
    assert_eq!(version.level_len(1), 4);
    assert_eq!(version.len(), 4);
}

#[test]
fn delete_file_removes_gens_and_reports_them() {
    let mut version = Version::new();
    version
        .apply(vec![VersionEdit::NewFile(
            (vec![scope(1, b"a", b"c"), scope(2, b"b", b"d"), scope(3, b"a", b"z")], 0),
            0,
            meta(30, 3),
        )])
        .unwrap();
    let tag = version
        .apply(vec![
            VersionEdit::DeleteFile((vec![3, 1], 0), meta(20, 2)),
            VersionEdit::NewFile((vec![scope(4, b"a", b"z")], 1), 0, meta(15, 2)),
            VersionEdit::DeleteFile((vec![9], 2), meta(0, 0)),
        ])
        .unwrap();
    assert_eq!(gens_of(&version, 0), vec![2]);
    assert_eq!(gens_of(&version, 1), vec![4]);
    assert_eq!(version.size_of_disk(), 25);
    assert_eq!(version.len(), 3);
    match tag {
        CleanTag::Add { version: number, gens } => {
            assert_eq!(number, 2);
            assert_eq!(gens, vec![3, 1, 9]);
        }
        CleanTag::Clean(_) => panic!("apply announces deleted gens"),
    }
}

#[test]
fn overlapping_level_1_is_refused_and_version_kept() {
    let mut version = Version::new();
    version
        .apply(vec![VersionEdit::NewFile((vec![scope(1, b"a", b"f")], 1), 0, meta(1, 1))])
        .unwrap();
    let refused =
        version.apply(vec![VersionEdit::NewFile((vec![scope(2, b"e", b"k")], 1), 1, meta(1, 1))]);
    assert_eq!(refused.unwrap_err(), KvsError::Internal);
    assert_eq!(gens_of(&version, 1), vec![1]);
    assert_eq!(version.version_num(), 1);
    assert_eq!(version.len(), 1);
}

#[test]
fn misplaced_edits_are_refused() {
    let mut version = Version::new();
    let bad_level = version.apply(vec![VersionEdit::DeleteFile((vec![1], 7), meta(0, 0))]);
    assert_eq!(bad_level.unwrap_err(), KvsError::Internal);
    let bad_index =
        version.apply(vec![VersionEdit::NewFile((vec![scope(1, b"a", b"b")], 2), 1, meta(1, 1))]);
    assert_eq!(bad_index.unwrap_err(), KvsError::Internal);
    let underflow = version.apply(vec![VersionEdit::DeleteFile((vec![1], 0), meta(1, 0))]);
    assert_eq!(underflow.unwrap_err(), KvsError::Internal);
    let overflow = version.apply(vec![
        VersionEdit::NewFile((vec![scope(1, b"a", b"b")], 0), 0, meta(u64::MAX, 1)),
        VersionEdit::NewFile((vec![scope(2, b"a", b"b")], 0), 0, meta(1, 1)),
    ]);
    assert_eq!(overflow.unwrap_err(), KvsError::Internal);
    assert_eq!(version.version_num(), 0);
    assert!(version.is_empty());
}

#[test]
fn to_vec_edit_then_load_from_log_gives_the_levels_back() {
    let mut version = Version::new();
    version
        .apply(vec![
            VersionEdit::NewFile((vec![scope(1, b"a", b"c"), scope(2, b"b", b"d")], 0), 0, meta(7, 2)),
            VersionEdit::NewFile((vec![scope(3, b"a", b"c"), scope(4, b"e", b"f")], 1), 0, meta(9, 4)),
            VersionEdit::NewFile((vec![scope(5, b"q", b"r")], 4), 0, meta(1, 1)),
        ])
        .unwrap();
    let edits = version.to_vec_edit();
    // each level stands in ascending order of gen: one edit for each
    assert_eq!(edits.len(), 3);
    assert_eq!(whole(&edits[0]), (vec![1, 2], 0, 0, meta(17, 7)));
    assert_eq!(whole(&edits[1]), (vec![3, 4], 1, 0, meta(0, 0)));
    assert_eq!(whole(&edits[2]), (vec![5], 4, 0, meta(0, 0)));
    let (rebuilt, _) = Version::load_from_log(edits).unwrap();
    for level in 0..7 {
        assert_eq!(gens_of(&rebuilt, level), gens_of(&version, level));
    }
    assert_eq!(rebuilt.version_num(), 1);
    assert_eq!(rebuilt.len(), version.len());
    assert_eq!(rebuilt.size_of_disk(), version.size_of_disk());
}

#[test]
fn index_finds_the_first_table_of_a_gen() {
    let mut version = Version::new();
    version
        .apply(vec![VersionEdit::NewFile(
            (vec![scope(5, b"a", b"c"), scope(7, b"b", b"d"), scope(9, b"a", b"z")], 0),
            0,
            meta(30, 3),
        )])
        .unwrap();
    assert_eq!(version.index(0, 7), Some(1));
    assert_eq!(version.index(0, 8), None);
    assert_eq!(version.index(1, 7), None);
    assert_eq!(version.find_index_by_level(Some(9), 0), 2);
    assert_eq!(version.find_index_by_level(Some(8), 0), 0);
    assert_eq!(version.find_index_by_level(None, 0), 0);
}

#[test]
fn query_meet_index_names_the_last_table_starting_at_or_before_the_key() {
    let mut version = Version::new();
    assert_eq!(version.query_meet_index(b"k", 1), 0);
    version
        .apply(vec![VersionEdit::NewFile(
            (vec![scope(1, b"b", b"c"), scope(2, b"f", b"h"), scope(3, b"m", b"p")], 1),
            0,
            meta(3, 3),
        )])
        .unwrap();
    assert_eq!(version.query_meet_index(b"a", 1), 0);
    assert_eq!(version.query_meet_index(b"b", 1), 0);
    assert_eq!(version.query_meet_index(b"e", 1), 0);
    assert_eq!(version.query_meet_index(b"f", 1), 1);
    assert_eq!(version.query_meet_index(b"g", 1), 1);
    assert_eq!(version.query_meet_index(b"m", 1), 2);
    assert_eq!(version.query_meet_index(b"zz", 1), 2);
}

#[test]
fn snapshot_gen_picks_the_last_complete_segment() {
    for complete in [false, true] {
        assert_eq!(snapshot_gen(None, complete), SnapshotGen::Fresh);
        assert_eq!(snapshot_gen(Some(&vec![]), complete), SnapshotGen::Fresh);
        assert_eq!(
            snapshot_gen(Some(&vec![7]), complete),
            SnapshotGen::Existing { gen: 7, discard: None }
        );
    }
    // a newest segment that broke off is discarded
    assert_eq!(
        snapshot_gen(Some(&vec![7, 9]), false),
        SnapshotGen::Existing { gen: 7, discard: Some(9) }
    );
    assert_eq!(
        snapshot_gen(Some(&vec![3, 7, 9, 12]), false),
        SnapshotGen::Existing { gen: 9, discard: Some(12) }
    );
    // a newest segment that is complete is the snapshot, and nothing goes
    assert_eq!(
        snapshot_gen(Some(&vec![7, 9]), true),
        SnapshotGen::Existing { gen: 9, discard: None }
    );
    assert_eq!(
        snapshot_gen(Some(&vec![3, 7, 9, 12]), true),
        SnapshotGen::Existing { gen: 12, discard: None }
    );
}

#[test]
fn a_segment_is_complete_once_its_first_record_is_whole() {
    let snapshot = encode_edits(&Version::new().to_vec_edit()).unwrap();
    let record = frame(&snapshot).unwrap();
    assert!(is_complete_segment(&record));
    let mut longer = record.clone();
    longer.extend_from_slice(&[9, 0, 0]);
    assert!(is_complete_segment(&longer));
    assert!(!is_complete_segment(&[]));
    assert!(!is_complete_segment(&record[..record.len() - 1]));
    assert!(!is_complete_segment(&closing_record()));
    let mut spoiled = record.clone();
    let last = spoiled.len() - 1;
    spoiled[last] ^= 1;
    assert!(!is_complete_segment(&spoiled));
}

fn whole(edit: &VersionEdit) -> (Vec<i64>, usize, usize, TableMeta) {
    match edit {
        VersionEdit::NewFile((scopes, level), index, counters) => {
            (scopes.iter().map(Scope::get_gen).collect(), *level, *index, *counters)
        }
        VersionEdit::DeleteFile(..) => panic!("a version is written out as new files"),
    }
}

#[test]
fn to_vec_edit_carries_the_counters_where_level_0_is_empty() {
    let mut version = Version::new();
    version
        .apply(vec![
            VersionEdit::NewFile((vec![scope(3, b"a", b"c"), scope(4, b"e", b"f")], 1), 0, meta(9, 4)),
            VersionEdit::NewFile((vec![scope(5, b"q", b"r")], 4), 0, meta(1, 1)),
        ])
        .unwrap();
    assert_eq!(version.size_of_disk(), 10);
    assert_eq!(version.len(), 5);
    let edits = version.to_vec_edit();
    assert_eq!(edits.len(), 2);
    assert_eq!(whole(&edits[0]), (vec![3, 4], 1, 0, meta(10, 5)));
    assert_eq!(whole(&edits[1]), (vec![5], 4, 0, meta(0, 0)));
    let (rebuilt, _) = Version::load_from_log(edits).unwrap();
    assert_eq!(rebuilt.size_of_disk(), 10);
    assert_eq!(rebuilt.len(), 5);
    assert_eq!(gens_of(&rebuilt, 1), vec![3, 4]);
    assert_eq!(gens_of(&rebuilt, 4), vec![5]);
    // a version without tables is written out as no edit
    assert!(Version::new().to_vec_edit().is_empty());
}

#[test]
fn to_vec_edit_keeps_the_order_of_a_level_whose_gens_do_not_ascend() {
    let mut version = Version::new();
    version
        .apply(vec![VersionEdit::NewFile(
            (vec![scope(2, b"e", b"f"), scope(4, b"g", b"h")], 1),
            0,
            meta(3, 1),
        )])
        .unwrap();
    // newer tables go in front of older ones
    version
        .apply(vec![VersionEdit::NewFile(
            (vec![scope(8, b"a", b"b"), scope(9, b"c", b"d")], 1),
            0,
            meta(4, 2),
        )])
        .unwrap();
    version
        .apply(vec![VersionEdit::NewFile((vec![scope(7, b"k", b"m"), scope(6, b"a", b"b")], 0), 0, meta(5, 3))])
        .unwrap();
    assert_eq!(gens_of(&version, 0), vec![6, 7]);
    assert_eq!(gens_of(&version, 1), vec![8, 9, 2, 4]);
    let edits = version.to_vec_edit();
    // level 1 is written out as its two stretches of ascending gens
    assert_eq!(edits.len(), 3);
    assert_eq!(whole(&edits[0]), (vec![6, 7], 0, 0, meta(12, 6)));
    assert_eq!(whole(&edits[1]), (vec![8, 9], 1, 0, meta(0, 0)));
    assert_eq!(whole(&edits[2]), (vec![2, 4], 1, 2, meta(0, 0)));
    let (rebuilt, _) = Version::load_from_log(edits).unwrap();
    assert_eq!(gens_of(&rebuilt, 0), vec![6, 7]);
    assert_eq!(gens_of(&rebuilt, 1), vec![8, 9, 2, 4]);
    assert_eq!(rebuilt.size_of_disk(), 12);
    assert_eq!(rebuilt.len(), 6);
}

#[test]
fn a_gen_that_the_successor_names_is_not_handed_to_the_cleaner() {
    let mut version = Version::new();
    let tag = version
        .apply(vec![
            VersionEdit::DeleteFile((vec![5], 0), meta(0, 0)),
            VersionEdit::NewFile((vec![scope(5, b"a", b"c")], 0), 0, meta(3, 1)),
        ])
        .unwrap();
    assert_eq!(tag, CleanTag::Add { version: 1, gens: vec![] });
    assert_eq!(gens_of(&version, 0), vec![5]);
    version
        .apply(vec![VersionEdit::NewFile((vec![scope(6, b"d", b"e")], 0), 0, meta(2, 1))])
        .unwrap();
    // the table with gen 5 moves one level down, the one with gen 6 goes
    let tag = version
        .apply(vec![
            VersionEdit::DeleteFile((vec![5, 6], 0), meta(5, 2)),
            VersionEdit::NewFile((vec![scope(5, b"a", b"c")], 1), 0, meta(3, 1)),
        ])
        .unwrap();
    assert_eq!(tag, CleanTag::Add { version: 3, gens: vec![6] });
    assert!(gens_of(&version, 0).is_empty());
    assert_eq!(gens_of(&version, 1), vec![5]);
    assert_eq!(version.len(), 1);
}

#[test]
fn successor_by_leaves_the_version_as_it_is() {
    let mut version = Version::new();
    version
        .apply(vec![VersionEdit::NewFile((vec![scope(3, b"e", b"f")], 1), 0, meta(2, 1))])
        .unwrap();
    let fitting = vec![VersionEdit::NewFile((vec![scope(4, b"a", b"b")], 1), 0, meta(1, 1))];
    let next = version.successor_by(&fitting).unwrap();
    assert_eq!(next.version_num(), 2);
    assert_eq!(gens_of(&next, 1), vec![4, 3]);
    assert_eq!(version.version_num(), 1);
    assert_eq!(gens_of(&version, 1), vec![3]);
    // behind the table that is there, the new one would break the order
    let unfit = vec![VersionEdit::NewFile((vec![scope(4, b"a", b"b")], 1), 1, meta(1, 1))];
    assert!(version.successor_by(&unfit).is_none());
    assert_eq!(version.apply(unfit).unwrap_err(), KvsError::Internal);
}
