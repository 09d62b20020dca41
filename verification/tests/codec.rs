use bitcaskplus::checksum::verify;
use bitcaskplus::command::{encode, Command};
use bitcaskplus::error::KvError;
use bitcaskplus::record::{extend, frame, read_at, ReadError, HEADER_LEN, MAX_PAYLOAD};
use bitcaskplus::scanner::{classify, parse, scan, ScanEnd};
use bitcaskplus::segment::Segment;

fn put(key: &str, value: &str) -> Command {
    Command::Put { key: key.to_string(), value: value.to_string() }
}

fn record_of(command: &Command) -> Vec<u8> {
    let payload = command.to_payload().expect("payload");
    let mut out = Vec::new();
    bitcaskplus::record::write(&mut out, &payload);
    out
}

#[test]
fn checksum_is_crc32_ieee() {
    // The standard check value of CRC-32 (IEEE).
    assert!(verify(0xCBF4_3926, b"123456789"));
    assert!(!verify(0xCBF4_3927, b"123456789"));
    assert!(verify(0, b""));
}

#[test]
fn frame_lays_out_header_then_payload() {
    let bytes = frame(0x0102_0304, b"ab");
    assert_eq!(bytes, vec![4, 3, 2, 1, 2, 0, 0, 0, 0, 0, 0, 0, b'a', b'b']);
    assert_eq!(frame(0, b""), vec![0u8; 12]);
}

#[test]
fn extend_appends_in_order() {
    let mut dst = vec![1u8, 2];
    extend(&mut dst, &[3, 4, 5]);
    assert_eq!(dst, vec![1, 2, 3, 4, 5]);
}

#[test]
fn write_returns_header_plus_payload_length() {
    let mut sink = vec![9u8];
    let len = bitcaskplus::record::write(&mut sink, b"123456789");
    assert_eq!(len, 21);
    assert_eq!(HEADER_LEN, 12);
    assert_eq!(sink.len(), 22);
    assert_eq!(&sink[1..5], &[0x26, 0x39, 0xF4, 0xCB]);
    assert_eq!(&sink[5..13], &[9, 0, 0, 0, 0, 0, 0, 0]);
    assert_eq!(&sink[13..], b"123456789");
}

#[test]
fn read_at_gives_back_what_write_wrote() {
    let mut sink = Vec::new();
    bitcaskplus::record::write(&mut sink, b"first");
    let second = sink.len() as u64;
    bitcaskplus::record::write(&mut sink, b"second!");
    let (crc, payload) = read_at(&sink, 0).expect("first record");
    assert_eq!(payload, b"first");
    assert!(verify(crc, &payload));
    let (crc, payload) = read_at(&sink, second).expect("second record");
    assert_eq!(payload, b"second!");
    assert!(verify(crc, &payload));
}

#[test]
fn read_at_does_not_compare_the_checksum() {
    let bytes = frame(12345, b"payload");
    let (crc, payload) = read_at(&bytes, 0).expect("whole record");
    assert_eq!(crc, 12345);
    assert_eq!(payload, b"payload");
    assert!(!verify(crc, &payload));
}

#[test]
fn read_at_tells_why_no_record_is_there() {
    let bytes = frame(1, b"abcdef");
    assert_eq!(read_at(&bytes, bytes.len() as u64), Err(ReadError::EndOfLog));
    assert_eq!(read_at(&bytes, 1000), Err(ReadError::EndOfLog));
    assert_eq!(read_at(&[], 0), Err(ReadError::EndOfLog));
    // Inside the header.
    assert_eq!(read_at(&bytes[..11], 0), Err(ReadError::Truncated));
    assert_eq!(read_at(&bytes[..1], 0), Err(ReadError::Truncated));
    // Inside the payload.
    assert_eq!(read_at(&bytes[..12], 0), Err(ReadError::Truncated));
    assert_eq!(read_at(&bytes[..17], 0), Err(ReadError::Truncated));
    // A length above the cap.
    let mut huge = vec![0u8; 4];
    huge.extend_from_slice(&(MAX_PAYLOAD + 1).to_le_bytes());
    huge.extend_from_slice(&[0u8; 32]);
    assert_eq!(read_at(&huge, 0), Err(ReadError::Oversize));
    // A length at the cap is only too long for this source.
    let mut capped = vec![0u8; 4];
    capped.extend_from_slice(&MAX_PAYLOAD.to_le_bytes());
    capped.extend_from_slice(&[0u8; 32]);
    assert_eq!(read_at(&capped, 0), Err(ReadError::Truncated));
}

#[test]
fn commands_are_written_as_json_pairs() {
    assert_eq!(put("a", "1").serialize(), Ok(b"[\"a\",\"1\"]".to_vec()));
    let remove = Command::Remove { key: "a".to_string() };
    assert_eq!(remove.serialize(), Ok(b"[\"a\",null]".to_vec()));
    assert_eq!(put("q\"\n", "").serialize(), Ok(b"[\"q\\\"\\n\",\"\"]".to_vec()));
}

#[test]
fn commands_are_read_back_from_json_pairs() {
    let back = Command::decode(b"[\"k\",\"v\"]").expect("a pair");
    assert!(back.same(&put("k", "v")));
    let back = Command::decode(b"[\"k\",null]").expect("a tombstone");
    assert!(back.same(&Command::Remove { key: "k".to_string() }));
    assert!(matches!(back, Command::Remove { .. }));
}

#[test]
fn decode_rejects_what_is_no_command() {
    assert!(matches!(Command::decode(b"oops"), Err(KvError::Codec)));
    assert!(matches!(Command::decode(b""), Err(KvError::Codec)));
    assert!(matches!(Command::decode(b"[\"k\"]"), Err(KvError::Codec)));
    assert!(matches!(Command::decode(b"[\"k\",\"v\"] x"), Err(KvError::Codec)));
    assert!(matches!(Command::decode(b"[1,2]"), Err(KvError::Codec)));
}

#[test]
fn encoding_round_trips_awkward_strings() {
    let samples = ["", " ", "\"", "\\", "\u{0}", "\u{1f}", "line\nbreak", "tab\t", "h\u{e9}llo", "\u{1F600}", "[\"a\",null]"];
    for key in samples {
        for value in samples {
            let command = put(key, value);
            let payload = command.to_payload().expect("payload");
            let back = Command::decode(&payload).expect("read back");
            assert!(back.same(&command));
        }
        let command = Command::Remove { key: key.to_string() };
        let payload = command.to_payload().expect("payload");
        assert!(Command::decode(&payload).expect("read back").same(&command));
    }
}

#[test]
fn from_fields_picks_the_variant() {
    let set = Command::from_fields("k".to_string(), Some("v".to_string()));
    assert!(set.same(&put("k", "v")));
    assert_eq!(set.key(), "k");
    let remove = Command::from_fields("k".to_string(), None);
    assert!(remove.same(&Command::Remove { key: "k".to_string() }));
    assert_eq!(remove.key(), "k");
}

#[test]
fn same_compares_variant_key_and_value() {
    assert!(put("a", "1").same(&put("a", "1")));
    assert!(!put("a", "1").same(&put("a", "2")));
    assert!(!put("a", "1").same(&put("b", "1")));
    assert!(!put("a", "1").same(&Command::Remove { key: "a".to_string() }));
    assert!(!Command::Remove { key: "a".to_string() }.same(&Command::Remove { key: "b".to_string() }));
}

#[test]
fn encode_gives_payload_checksum_and_length() {
    let (payload, crc, len) = encode(&put("a", "1")).expect("encoded");
    assert_eq!(payload, b"[\"a\",\"1\"]");
    assert_eq!(len, 9);
    assert!(verify(crc, &payload));
    assert_eq!(frame(crc, &payload), record_of(&put("a", "1")));
}

#[test]
fn to_payload_refuses_what_is_above_the_cap() {
    let big = "x".repeat(MAX_PAYLOAD as usize);
    assert_eq!(put("k", &big).to_payload(), Err(KvError::Codec));
    assert!(matches!(encode(&put("k", &big)), Err(KvError::Codec)));
    // `["k","` and `"]` take eight bytes: this one is exactly at the cap.
    let fits = "x".repeat(MAX_PAYLOAD as usize - 8);
    assert_eq!(put("k", &fits).to_payload().map(|p| p.len() as u64), Ok(MAX_PAYLOAD));
}

#[test]
fn parse_checks_checksum_and_payload() {
    let good = record_of(&put("a", "1"));
    let (command, len) = parse(&good, 0).expect("sound record");
    assert!(command.same(&put("a", "1")));
    assert_eq!(len, 21);
    let mut flipped = good.clone();
    flipped[15] ^= 0xff;
    assert!(parse(&flipped, 0).is_none());
    let mut no_command = Vec::new();
    bitcaskplus::record::write(&mut no_command, b"not json!");
    assert!(parse(&no_command, 0).is_none());
    assert!(parse(&good, 21).is_none());
    assert!(parse(&good[..20], 0).is_none());
}

#[test]
fn scan_yields_commands_with_their_extents() {
    let mut log = record_of(&put("a", "1"));
    log.extend(record_of(&Command::Remove { key: "a".to_string() }));
    log.extend(record_of(&put("bb", "22")));
    let found = scan(&log);
    assert_eq!(found.entries.len(), 3);
    assert_eq!((found.entries[0].pos, found.entries[0].len), (0, 21));
    assert_eq!((found.entries[1].pos, found.entries[1].len), (21, 22));
    assert_eq!((found.entries[2].pos, found.entries[2].len), (43, 23));
    assert!(found.entries[0].command.same(&put("a", "1")));
    assert!(found.entries[1].command.same(&Command::Remove { key: "a".to_string() }));
    assert!(found.entries[2].command.same(&put("bb", "22")));
    assert_eq!(found.stop, 66);
    assert_eq!(found.end, ScanEnd::Complete);
}

#[test]
fn scan_of_nothing_is_complete() {
    let found = scan(&[]);
    assert!(found.entries.is_empty());
    assert_eq!(found.stop, 0);
    assert_eq!(found.end, ScanEnd::Complete);
}

#[test]
fn scan_stops_at_a_bad_record_in_the_middle() {
    let mut log = record_of(&put("a", "1"));
    let mut second = record_of(&put("b", "2"));
    second[14] ^= 1;
    log.extend(second);
    log.extend(record_of(&put("c", "3")));
    let found = scan(&log);
    assert_eq!(found.entries.len(), 1);
    assert_eq!(found.stop, 21);
    assert_eq!(found.end, ScanEnd::BadRecord);
    assert_eq!(classify(&log, 21), ScanEnd::BadRecord);
    assert_eq!(classify(&log, 0), ScanEnd::BadRecord);
    assert_eq!(classify(&log, log.len() as u64), ScanEnd::Complete);
}

#[test]
fn scan_tolerates_any_cut_inside_the_last_record() {
    let mut log = record_of(&put("a", "1"));
    log.extend(record_of(&put("b", "2")));
    let last = record_of(&put("key", "a longer value"));
    let whole = log.len();
    log.extend(&last);
    for cut in 1..last.len() {
        let found = scan(&log[..log.len() - cut]);
        assert_eq!(found.entries.len(), 2);
        assert_eq!(found.stop as usize, whole);
        assert_eq!(found.end, ScanEnd::TornTail);
        assert!(found.entries[0].command.same(&put("a", "1")));
        assert!(found.entries[1].command.same(&put("b", "2")));
    }
    assert_eq!(scan(&log[..whole]).end, ScanEnd::Complete);
    assert_eq!(scan(&log).entries.len(), 3);
}

#[test]
fn scan_of_any_prefix_is_a_leading_part() {
    let mut log = Vec::new();
    for i in 0..5 {
        log.extend(record_of(&put(&format!("k{}", i), &format!("v{}", i))));
    }
    let all = scan(&log);
    for n in 0..=log.len() {
        let part = scan(&log[..n]);
        assert!(part.entries.len() <= all.entries.len());
        for (i, e) in part.entries.iter().enumerate() {
            assert_eq!((e.pos, e.len), (all.entries[i].pos, all.entries[i].len));
            assert!(e.command.same(&all.entries[i].command));
        }
        let whole = all.entries.iter().filter(|e| (e.pos + e.len) as usize <= n).count();
        assert_eq!(part.entries.len(), whole);
    }
}

#[test]
fn segment_appends_reads_and_scans() {
    let mut segment = Segment::new(7);
    assert_eq!(segment.file_num, 7);
    assert!(segment.data.is_empty());
    let (payload, crc, _) = encode(&put("a", "1")).expect("encoded");
    assert_eq!(segment.append_record(crc, &payload), 0);
    let (payload2, crc2, _) = encode(&put("b", "22")).expect("encoded");
    assert_eq!(segment.append_record(crc2, &payload2), 21);
    assert_eq!(segment.data.len(), 43);
    assert_eq!(segment.read_record(21), Ok((crc2, payload2)));
    assert_eq!(segment.read_record(43), Err(ReadError::EndOfLog));
    assert_eq!(segment.read_record(40), Err(ReadError::Truncated));
    let found = segment.scan();
    assert_eq!(found.entries.len(), 2);
    assert_eq!(found.end, ScanEnd::Complete);
}
