use kip_db::codec::{
    decode_entry, decode_table, encode_entry, encode_table, push_i64, push_key, push_u64,
    take_i64, take_key, take_u64,
};
use kip_db::command::CommandData;
use kip_db::error::KvsError;
use kip_db::log::{closing_record, frame};
use kip_db::run::Entry;
use kip_db::scope::Scope;
use kip_db::version::codec::{decode_edits, encode_edits};
use kip_db::version::edit::VersionEdit;
use kip_db::version::meta::TableMeta;

#[test]
fn numbers_and_keys_are_fields() {
    let mut out = vec![9];
    push_u64(&mut out, 0x0102_0304_0506_0708);
    push_i64(&mut out, i64::MIN);
    push_i64(&mut out, -1);
    push_i64(&mut out, 0);
    push_i64(&mut out, i64::MAX);
    assert!(push_key(&mut out, b"key"));
    assert_eq!(&out[..9], &[9, 8, 7, 6, 5, 4, 3, 2, 1]);
    assert_eq!(&out[9..17], &[0; 8]);
    assert_eq!(&out[17..25], &[0xff, 0xff, 0xff, 0xff, 0xff, 0xff, 0xff, 0x7f]);
    assert_eq!(&out[25..33], &[0, 0, 0, 0, 0, 0, 0, 0x80]);
    assert_eq!(&out[33..41], &[0xff; 8]);
    assert_eq!(&out[41..], &[3, 0, 0, 0, b'k', b'e', b'y']);
    assert_eq!(take_u64(&out, 1), Some((0x0102_0304_0506_0708, 9)));
    assert_eq!(take_i64(&out, 9), Some((i64::MIN, 17)));
    assert_eq!(take_i64(&out, 17), Some((-1, 25)));
    assert_eq!(take_i64(&out, 25), Some((0, 33)));
    assert_eq!(take_i64(&out, 33), Some((i64::MAX, 41)));
    assert_eq!(take_key(&out, 41), Some((b"key".to_vec(), 48)));
    assert_eq!(take_u64(&out, 41), None);
    assert_eq!(take_i64(&out, 48), None);
    assert_eq!(take_i64(&out, 49), None);
    assert_eq!(take_key(&out, 45), None);
    assert_eq!(take_key(&out, 42), None);
}

#[test]
fn entries_go_to_payloads_and_back() {
    let entries = vec![
        Entry { cmd: CommandData::set(b"k".to_vec(), b"value".to_vec()), seq: 7 },
        Entry { cmd: CommandData::remove(b"gone".to_vec()), seq: -3 },
        Entry { cmd: CommandData::set(Vec::new(), Vec::new()), seq: i64::MAX },
    ];
    for entry in &entries {
        let payload = encode_entry(entry).unwrap();
        assert_eq!(decode_entry(&payload).as_ref(), Ok(entry));
    }
    let payload = encode_entry(&entries[0]).unwrap();
    assert_eq!(
        payload,
        vec![7, 0, 0, 0, 0, 0, 0, 0x80, 0, 1, 0, 0, 0, b'k', b'v', b'a', b'l', b'u', b'e']
    );
    assert_eq!(decode_entry(&payload[..12]), Err(KvsError::SerializationError));
    assert_eq!(decode_entry(&payload[..7]), Err(KvsError::SerializationError));
}

#[test]
fn a_table_file_is_read_back() {
    let entries = vec![
        Entry { cmd: CommandData::set(b"a".to_vec(), vec![1; 300]), seq: 1 },
        Entry { cmd: CommandData::remove(b"b".to_vec()), seq: 2 },
        Entry { cmd: CommandData::set(b"c".to_vec(), vec![]), seq: 3 },
    ];
    let bytes = encode_table(&entries).unwrap();
    assert_eq!(decode_table(&bytes), Ok(entries.clone()));
    let mut by_hand = Vec::new();
    for entry in &entries {
        by_hand.extend(frame(&encode_entry(entry).unwrap()).unwrap());
    }
    by_hand.extend(closing_record());
    assert_eq!(bytes, by_hand);
    assert_eq!(encode_table(&Vec::new()).unwrap(), vec![0; 8]);
    assert_eq!(decode_table(&[0; 8]), Ok(Vec::new()));
}

#[test]
fn a_damaged_table_file_is_refused() {
    let entries = vec![
        Entry { cmd: CommandData::set(b"a".to_vec(), vec![1]), seq: 1 },
        Entry { cmd: CommandData::set(b"b".to_vec(), vec![2]), seq: 2 },
    ];
    let bytes = encode_table(&entries).unwrap();
    // without the closing record
    assert_eq!(decode_table(&bytes[..bytes.len() - 8]), Err(KvsError::Corruption));
    assert_eq!(decode_table(&bytes[..bytes.len() - 1]), Err(KvsError::Corruption));
    assert_eq!(decode_table(&[]), Err(KvsError::Corruption));
    // with a flipped bit
    let mut flipped = bytes.clone();
    flipped[10] ^= 4;
    assert_eq!(decode_table(&flipped), Err(KvsError::Corruption));
    // with a record that holds no entry
    let mut other = frame(b"no entry").unwrap();
    other.extend(closing_record());
    assert_eq!(decode_table(&other), Err(KvsError::Corruption));
}

#[test]
fn edits_go_to_a_payload_and_back() {
    let edits = vec![
        VersionEdit::DeleteFile((vec![3, -1, i64::MAX], 2), TableMeta { size_of_disk: 9, len: 4 }),
        VersionEdit::NewFile(
            (
                vec![
                    Scope::from_range(5, b"a".to_vec(), b"c".to_vec()),
                    Scope::from_range(-6, Vec::new(), vec![0xff; 40]),
                ],
                3,
            ),
            7,
            TableMeta { size_of_disk: u64::MAX, len: 12 },
        ),
        VersionEdit::NewFile((Vec::new(), 0), 0, TableMeta { size_of_disk: 0, len: 0 }),
        VersionEdit::DeleteFile((Vec::new(), 6), TableMeta { size_of_disk: 0, len: 0 }),
    ];
    let payload = encode_edits(&edits).unwrap();
    let read = decode_edits(&payload).unwrap();
    assert_eq!(read.len(), 4);
    assert_eq!(encode_edits(&read).unwrap(), payload);
    match (&read[0], &read[1]) {
        (VersionEdit::DeleteFile((gens, level), meta), VersionEdit::NewFile((scopes, depth), index, come)) => {
            assert_eq!(gens, &vec![3, -1, i64::MAX]);
            assert_eq!(*level, 2);
            assert_eq!(*meta, TableMeta { size_of_disk: 9, len: 4 });
            assert_eq!((*depth, *index), (3, 7));
            assert_eq!(*come, TableMeta { size_of_disk: u64::MAX, len: 12 });
            assert_eq!(scopes.len(), 2);
            assert_eq!((scopes[0].get_gen(), scopes[0].start(), scopes[0].end()), (5, &b"a"[..], &b"c"[..]));
            assert_eq!(scopes[1].get_gen(), -6);
            assert_eq!(scopes[1].end(), &[0xff; 40][..]);
        }
        _ => panic!("the edits come back in order"),
    }
    assert_eq!(encode_edits(&Vec::new()).unwrap(), vec![0; 8]);
    assert!(decode_edits(&[0; 8]).unwrap().is_empty());
}

#[test]
fn the_layout_of_an_edit_is_fixed() {
    let edits =
        vec![VersionEdit::DeleteFile((vec![0], 1), TableMeta { size_of_disk: 2, len: 3 })];
    let word = |value: u8| [value, 0, 0, 0, 0, 0, 0, 0];
    let mut expected = Vec::new();
    expected.extend(word(1));
    expected.push(0);
    expected.extend(word(1));
    expected.extend(word(2));
    expected.extend(word(3));
    expected.extend(word(1));
    expected.extend([0, 0, 0, 0, 0, 0, 0, 0x80]);
    assert_eq!(encode_edits(&edits).unwrap(), expected);
}

#[test]
fn a_payload_that_holds_no_edits_is_refused() {
    let edits = vec![VersionEdit::NewFile(
        (vec![Scope::from_range(5, b"a".to_vec(), b"c".to_vec())], 3),
        7,
        TableMeta { size_of_disk: 1, len: 1 },
    )];
    let payload = encode_edits(&edits).unwrap();
    for cut in 0..payload.len() {
        assert_eq!(decode_edits(&payload[..cut]).err(), Some(KvsError::SerializationError));
    }
    let mut longer = payload.clone();
    longer.push(0);
    assert_eq!(decode_edits(&longer).err(), Some(KvsError::SerializationError));
    let mut bad_tag = payload.clone();
    bad_tag[8] = 2;
    assert_eq!(decode_edits(&bad_tag).err(), Some(KvsError::SerializationError));
    let mut more = payload;
    more[0] = 2;
    assert_eq!(decode_edits(&more).err(), Some(KvsError::SerializationError));
}
