use rustkv::codec::{decode, encode};
use rustkv::log::replay;
use rustkv::{Command, KvsError};

fn put(key: &str, value: &str) -> Command {
    Command::Put { key: key.to_owned(), value: value.to_owned() }
}

fn del(key: &str) -> Command {
    Command::Remove { key: key.to_owned() }
}

fn round_trips(command: Command) {
    let record = encode(&command).unwrap();
    let (back, used) = decode(&record).unwrap();
    assert_eq!(back, command);
    assert_eq!(used, record.len());
}

#[test]
fn put_record_has_exact_bytes() {
    let record = encode(&put("k", "vw")).unwrap();
    let expected: Vec<u8> = vec![
        0, 0, 0, 0, // tag
        1, 0, 0, 0, 0, 0, 0, 0, b'k', // key
        2, 0, 0, 0, 0, 0, 0, 0, b'v', b'w', // value
    ];
    assert_eq!(record, expected);
}

#[test]
fn remove_record_has_exact_bytes() {
    let record = encode(&del("key")).unwrap();
    let expected: Vec<u8> = vec![1, 0, 0, 0, 3, 0, 0, 0, 0, 0, 0, 0, b'k', b'e', b'y'];
    assert_eq!(record, expected);
}

#[test]
fn record_of_empty_strings_is_tag_and_lengths() {
    assert_eq!(encode(&put("", "")).unwrap(), vec![0u8; 20]);
    let mut expected = vec![0u8; 12];
    expected[0] = 1;
    assert_eq!(encode(&del("")).unwrap(), expected);
}

#[test]
fn length_field_counts_utf8_bytes() {
    let record = encode(&del("é€")).unwrap();
    let expected: Vec<u8> =
        vec![1, 0, 0, 0, 5, 0, 0, 0, 0, 0, 0, 0, 0xC3, 0xA9, 0xE2, 0x82, 0xAC];
    assert_eq!(record, expected);
}

#[test]
fn records_match_bincode_of_their_fields() {
    let set_record = encode(&put("key1", "value1")).unwrap();
    assert_eq!(set_record, bincode::serialize(&(0u32, "key1", "value1")).unwrap());
    let remove_record = encode(&del("key1")).unwrap();
    assert_eq!(remove_record, bincode::serialize(&(1u32, "key1")).unwrap());
}

#[test]
fn round_trip_of_plain_commands() {
    round_trips(put("key1", "value1"));
    round_trips(del("key1"));
}

#[test]
fn round_trip_of_empty_strings() {
    round_trips(put("", ""));
    round_trips(put("", "v"));
    round_trips(put("k", ""));
    round_trips(del(""));
}

#[test]
fn round_trip_of_strings_that_look_like_records() {
    let inner = encode(&put("a", "b")).unwrap();
    let text: String = inner.iter().map(|b| char::from(*b)).collect();
    round_trips(put(&text, &text));
    round_trips(del(&text));
    round_trips(put("\0\0\0\0", "\u{1}\0\0\0\0\0\0\0\0\0\0\0"));
}

#[test]
fn round_trip_of_long_and_non_ascii_strings() {
    let long = "x".repeat(100_000);
    round_trips(put(&long, &long));
    round_trips(put("ключ", "値 🚀"));
    round_trips(del("ключ"));
}

#[test]
fn decode_reads_the_first_record_and_reports_its_length() {
    let mut bytes = encode(&put("k", "v")).unwrap();
    let first_len = bytes.len();
    bytes.extend_from_slice(&encode(&del("other")).unwrap());
    bytes.extend_from_slice(&[0xFF, 0xFF]);

    let (first, used) = decode(&bytes).unwrap();
    assert_eq!(first, put("k", "v"));
    assert_eq!(used, first_len);
    assert_eq!(used, 22);

    let (second, used_again) = decode(&bytes[used..]).unwrap();
    assert_eq!(second, del("other"));
    assert_eq!(used_again, 17);
}

#[test]
fn decode_fails_on_no_bytes() {
    assert!(matches!(decode(&[]), Err(KvsError::Serde(_))));
}

#[test]
fn decode_fails_on_short_tag() {
    assert!(matches!(decode(&[0, 0, 0]), Err(KvsError::Serde(_))));
}

#[test]
fn decode_fails_on_unknown_tag() {
    let mut bytes = encode(&del("k")).unwrap();
    bytes[0] = 2;
    match decode(&bytes) {
        Err(KvsError::Serde(kind)) => {
            assert!(matches!(*kind, bincode::ErrorKind::InvalidTagEncoding(2)))
        }
        other => panic!("expected a decoding failure, got {:?}", other),
    }
}

#[test]
fn decode_fails_on_every_proper_prefix() {
    for command in [put("key", "value"), del("key"), put("", ""), del("")] {
        let record = encode(&command).unwrap();
        for cut in 0..record.len() {
            assert!(
                matches!(decode(&record[..cut]), Err(KvsError::Serde(_))),
                "prefix of {} bytes",
                cut
            );
        }
    }
}

#[test]
fn decode_fails_on_length_beyond_the_bytes() {
    let mut bytes = encode(&del("abc")).unwrap();
    bytes[4] = 4;
    assert!(matches!(decode(&bytes), Err(KvsError::Serde(_))));
    bytes[4] = 3;
    bytes[11] = 0x80;
    assert!(matches!(decode(&bytes), Err(KvsError::Serde(_))));
}

#[test]
fn decode_fails_on_invalid_utf8() {
    let mut bytes = encode(&del("ab")).unwrap();
    bytes[12] = 0xFF;
    match decode(&bytes) {
        Err(KvsError::Serde(kind)) => {
            assert!(matches!(*kind, bincode::ErrorKind::InvalidUtf8Encoding(_)))
        }
        other => panic!("expected a decoding failure, got {:?}", other),
    }

    let mut in_value = encode(&put("k", "é")).unwrap();
    let last = in_value.len() - 1;
    in_value[last] = b'a';
    assert!(matches!(decode(&in_value), Err(KvsError::Serde(_))));
}

#[test]
fn replay_of_empty_log_is_empty() {
    assert_eq!(replay(&[]).unwrap(), Vec::<Command>::new());
}

#[test]
fn replay_gives_commands_in_log_order() {
    let commands = vec![put("a", "1"), del("a"), put("b", "2"), del("never"), put("a", "3")];
    let mut log: Vec<u8> = Vec::new();
    for command in &commands {
        log.extend_from_slice(&encode(command).unwrap());
    }
    assert_eq!(replay(&log).unwrap(), commands);
}

#[test]
fn replay_fails_on_partial_trailing_record() {
    let mut log = encode(&put("a", "1")).unwrap();
    log.extend_from_slice(&encode(&del("a")).unwrap());
    for missing in 1..13 {
        let cut = log.len() - missing;
        assert!(matches!(replay(&log[..cut]), Err(KvsError::Serde(_))), "{} bytes short", missing);
    }
    assert_eq!(replay(&log[..log.len() - 13]).unwrap(), vec![put("a", "1")]);
}

#[test]
fn replay_fails_on_trailing_garbage() {
    let mut log = encode(&put("a", "1")).unwrap();
    log.push(0);
    assert!(matches!(replay(&log), Err(KvsError::Serde(_))));
}
