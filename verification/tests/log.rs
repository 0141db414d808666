use kip_db::command::CommandData;
use kip_db::error::KvsError;
use kip_db::log::{
    closing_record, crc32, decode_command, encode_command, frame, read_record, replay, Record,
};

#[test]
fn crc32_is_the_common_one() {
    assert_eq!(crc32(b""), 0);
    assert_eq!(crc32(b"123456789"), 0xCBF4_3926);
    assert_eq!(crc32(b"a"), 0xE8B7_BE43);
    assert_eq!(crc32(b"The quick brown fox jumps over the lazy dog"), 0x414F_A339);
}

#[test]
fn a_record_is_length_checksum_payload() {
    let record = frame(b"123456789").unwrap();
    assert_eq!(
        record,
        vec![9, 0, 0, 0, 0x26, 0x39, 0xF4, 0xCB, b'1', b'2', b'3', b'4', b'5', b'6', b'7', b'8', b'9']
    );
    assert_eq!(frame(b"").unwrap_err(), KvsError::SerializationError);
    assert_eq!(closing_record(), vec![0; 8]);
}

#[test]
fn records_are_read_back_where_they_stand() {
    let mut segment = vec![7, 7, 7];
    segment.extend(frame(b"first").unwrap());
    let second = segment.len();
    segment.extend(frame(b"2nd").unwrap());
    let end = segment.len();
    segment.extend(closing_record());
    assert_eq!(
        read_record(&segment, 3),
        Ok(Record::Payload { payload: b"first".to_vec(), next: second })
    );
    assert_eq!(
        read_record(&segment, second),
        Ok(Record::Payload { payload: b"2nd".to_vec(), next: end })
    );
    assert_eq!(read_record(&segment, end), Ok(Record::End));
    assert_eq!(read_record(&segment, segment.len()), Ok(Record::Truncated));
    assert_eq!(read_record(&segment, segment.len() - 3), Ok(Record::Truncated));
}

#[test]
fn replay_reads_a_closed_segment() {
    let mut segment = Vec::new();
    segment.extend(frame(b"a").unwrap());
    segment.extend(frame(b"bb").unwrap());
    segment.extend(frame(b"ccc").unwrap());
    assert_eq!(
        replay(&segment),
        Ok((vec![b"a".to_vec(), b"bb".to_vec(), b"ccc".to_vec()], false))
    );
    segment.extend(closing_record());
    assert_eq!(
        replay(&segment),
        Ok((vec![b"a".to_vec(), b"bb".to_vec(), b"ccc".to_vec()], true))
    );
    // what follows the closing record is not read
    segment.extend(frame(b"late").unwrap());
    assert_eq!(
        replay(&segment),
        Ok((vec![b"a".to_vec(), b"bb".to_vec(), b"ccc".to_vec()], true))
    );
    assert_eq!(replay(&[]), Ok((Vec::new(), false)));
    assert_eq!(replay(&closing_record()), Ok((Vec::new(), true)));
}

#[test]
fn a_record_that_broke_off_is_dropped() {
    let mut whole = Vec::new();
    whole.extend(frame(b"kept").unwrap());
    let kept = whole.len();
    whole.extend(frame(b"broken off").unwrap());
    for cut in kept..whole.len() {
        assert_eq!(replay(&whole[..cut]), Ok((vec![b"kept".to_vec()], false)));
    }
    for cut in 0..kept {
        assert_eq!(replay(&whole[..cut]), Ok((Vec::new(), false)));
    }
}

#[test]
fn corruption_is_reported() {
    let mut segment = Vec::new();
    segment.extend(frame(b"first").unwrap());
    let second = segment.len();
    segment.extend(frame(b"second").unwrap());
    segment.extend(closing_record());
    let mut flipped = segment.clone();
    flipped[second + 9] ^= 1;
    assert_eq!(replay(&flipped), Err(KvsError::Corruption));
    assert_eq!(read_record(&flipped, 0).unwrap(), Record::Payload { payload: b"first".to_vec(), next: second });
    assert_eq!(read_record(&flipped, second), Err(KvsError::Corruption));
    let mut bad_sum = segment.clone();
    bad_sum[4] ^= 0x80;
    assert_eq!(replay(&bad_sum), Err(KvsError::Corruption));
    // a length of zero with a checksum is no closing record
    assert_eq!(replay(&[0, 0, 0, 0, 1, 0, 0, 0]), Err(KvsError::Corruption));
}

#[test]
fn commands_go_to_payloads_and_back() {
    let set = CommandData::set(b"key".to_vec(), b"value".to_vec());
    let payload = encode_command(&set).unwrap();
    assert_eq!(payload, vec![0, 3, 0, 0, 0, b'k', b'e', b'y', b'v', b'a', b'l', b'u', b'e']);
    assert_eq!(decode_command(&payload), Ok(set));
    let remove = CommandData::remove(b"key".to_vec());
    let payload = encode_command(&remove).unwrap();
    assert_eq!(payload, vec![1, 3, 0, 0, 0, b'k', b'e', b'y']);
    assert_eq!(decode_command(&payload), Ok(remove));
    let empty = CommandData::set(Vec::new(), Vec::new());
    let payload = encode_command(&empty).unwrap();
    assert_eq!(payload, vec![0, 0, 0, 0, 0]);
    assert_eq!(decode_command(&payload), Ok(empty));
}

#[test]
fn payloads_that_hold_no_command_are_refused() {
    assert_eq!(decode_command(&[]), Err(KvsError::SerializationError));
    assert_eq!(decode_command(&[0, 1, 0, 0]), Err(KvsError::SerializationError));
    assert_eq!(decode_command(&[0, 2, 0, 0, 0, b'k']), Err(KvsError::SerializationError));
    assert_eq!(decode_command(&[1, 1, 0, 0, 0, b'k', b'v']), Err(KvsError::SerializationError));
    assert_eq!(decode_command(&[2, 1, 0, 0, 0, b'k']), Err(KvsError::SerializationError));
}

#[test]
fn a_logged_command_is_read_back_from_its_record() {
    let commands = vec![
        CommandData::set(b"a".to_vec(), vec![1]),
        CommandData::remove(b"a".to_vec()),
        CommandData::set(vec![0; 300], vec![9; 70000]),
    ];
    let mut segment = Vec::new();
    for command in &commands {
        segment.extend(frame(&encode_command(command).unwrap()).unwrap());
    }
    segment.extend(closing_record());
    let (payloads, clean) = replay(&segment).unwrap();
    assert!(clean);
    let read: Vec<CommandData> =
        payloads.iter().map(|payload| decode_command(payload).unwrap()).collect();
    assert_eq!(read, commands);
    // byte for byte
    let mut again = Vec::new();
    for command in &read {
        again.extend(frame(&encode_command(command).unwrap()).unwrap());
    }
    again.extend(closing_record());
    assert_eq!(again, segment);
}

#[test]
fn the_older_half_of_too_many_segments_goes() {
    use_retire_segments();
}

fn use_retire_segments() {
    assert!(kip_db::log::retire_segments(&vec![1, 2, 3], 3).is_empty());
    assert_eq!(kip_db::log::retire_segments(&vec![1, 2, 3, 4], 3), vec![1, 2]);
    assert_eq!(kip_db::log::retire_segments(&vec![1, 2, 3, 4, 5], 3), vec![1, 2]);
    assert_eq!(kip_db::log::retire_segments(&vec![7], 0), Vec::<i64>::new());
    assert_eq!(kip_db::log::retire_segments(&vec![7, 8], 0), vec![7]);
    assert!(kip_db::log::retire_segments(&Vec::new(), 0).is_empty());
}
