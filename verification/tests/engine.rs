use bitcaskplus::command::Command;
use bitcaskplus::error::KvError;
use bitcaskplus::index::CommandPos;
use bitcaskplus::model::COMPACTION_THRESHOLD;
use bitcaskplus::segment::LogDir;
use bitcaskplus::store::{migrate_entry, read_command, read_payload, BitCaskPlus};

fn at(file_num: u64, pos: u64, len: u64) -> CommandPos {
    CommandPos { file_num, pos, len }
}

fn opened() -> (BitCaskPlus, LogDir) {
    let mut dir = LogDir::new();
    let store = BitCaskPlus::open(&mut dir).expect("open");
    (store, dir)
}

fn bytes_of(dir: &LogDir, g: u64) -> Vec<u8> {
    dir.segment(g).expect("segment").data.clone()
}

#[test]
fn set_two_keys_and_read_three() {
    let (mut store, mut dir) = opened();
    store.set(&mut dir, "a".to_string(), "1".to_string()).unwrap();
    store.set(&mut dir, "b".to_string(), "2".to_string()).unwrap();
    assert_eq!(store.get(&dir, "a"), Ok(Some("1".to_string())));
    assert_eq!(store.get(&dir, "b"), Ok(Some("2".to_string())));
    assert_eq!(store.get(&dir, "c"), Ok(None));
}

#[test]
fn overwrite_survives_reopen() {
    let (mut store, mut dir) = opened();
    store.set(&mut dir, "k".to_string(), "v1".to_string()).unwrap();
    store.set(&mut dir, "k".to_string(), "v2".to_string()).unwrap();
    assert_eq!(store.get(&dir, "k"), Ok(Some("v2".to_string())));
    drop(store);
    let store = BitCaskPlus::open(&mut dir).unwrap();
    assert_eq!(store.get(&dir, "k"), Ok(Some("v2".to_string())));
}

#[test]
fn remove_absent_then_present() {
    let (mut store, mut dir) = opened();
    let before = bytes_of(&dir, 0);
    assert_eq!(store.remove(&mut dir, "x"), Err(KvError::KeyNotFound));
    assert_eq!(bytes_of(&dir, 0), before);
    store.set(&mut dir, "x".to_string(), "1".to_string()).unwrap();
    assert_eq!(store.remove(&mut dir, "x"), Ok(()));
    assert_eq!(store.get(&dir, "x"), Ok(None));
    assert_eq!(store.remove(&mut dir, "x"), Err(KvError::KeyNotFound));
}

#[test]
fn values_survive_close_and_open() {
    let (mut store, mut dir) = opened();
    store.set(&mut dir, "a".to_string(), "1".to_string()).unwrap();
    store.set(&mut dir, "b".to_string(), "2".to_string()).unwrap();
    drop(store);
    let store = BitCaskPlus::open(&mut dir).unwrap();
    assert_eq!(store.get(&dir, "a"), Ok(Some("1".to_string())));
    assert_eq!(store.get(&dir, "b"), Ok(Some("2".to_string())));
}

#[test]
fn corrupted_payload_is_reported() {
    let (mut store, mut dir) = opened();
    store.set(&mut dir, "a".to_string(), "hello".to_string()).unwrap();
    let place = store.locate("a").expect("live");
    let mut data = dir.take(place.file_num).expect("segment");
    data[(place.pos + 12 + 6) as usize] ^= 0x01;
    dir.create(place.file_num, data);
    assert_eq!(store.get(&dir, "a"), Err(KvError::Corruption));
}

#[test]
fn every_flipped_payload_byte_is_reported() {
    let (mut store, mut dir) = opened();
    store.set(&mut dir, "other".to_string(), "untouched".to_string()).unwrap();
    store.set(&mut dir, "a".to_string(), "hello".to_string()).unwrap();
    let place = store.locate("a").expect("live");
    let clean = bytes_of(&dir, place.file_num);
    for i in (place.pos + 12)..(place.pos + place.len) {
        for bit in 0..8 {
            let mut data = clean.clone();
            data[i as usize] ^= 1 << bit;
            dir.create(place.file_num, data);
            assert_eq!(store.get(&dir, "a"), Err(KvError::Corruption));
            assert_eq!(store.get(&dir, "other"), Ok(Some("untouched".to_string())));
        }
    }
    dir.create(place.file_num, clean);
    assert_eq!(store.get(&dir, "a"), Ok(Some("hello".to_string())));
}

#[test]
fn a_changed_header_is_corruption_too() {
    let (mut store, mut dir) = opened();
    store.set(&mut dir, "a".to_string(), "hello".to_string()).unwrap();
    let clean = bytes_of(&dir, 0);
    for i in 0..12 {
        let mut data = clean.clone();
        data[i] ^= 0x80;
        dir.create(0, data);
        assert_eq!(store.get(&dir, "a"), Err(KvError::Corruption));
    }
    // Cut short inside the record.
    dir.create(0, clean[..clean.len() - 1].to_vec());
    assert_eq!(store.get(&dir, "a"), Err(KvError::Corruption));
}

#[test]
fn a_missing_segment_is_an_io_error() {
    let (mut store, mut dir) = opened();
    store.set(&mut dir, "a".to_string(), "1".to_string()).unwrap();
    let empty = LogDir::new();
    assert_eq!(store.get(&empty, "a"), Err(KvError::Io));
    assert_eq!(store.get(&empty, "b"), Ok(None));
    assert_eq!(read_payload(&empty, at(0, 0, 21)), Err(KvError::Io));
}

#[test]
fn a_sound_record_that_is_no_command_is_a_codec_error() {
    let (mut store, mut dir) = opened();
    store.set(&mut dir, "a".to_string(), "1".to_string()).unwrap();
    let mut data = Vec::new();
    assert_eq!(bitcaskplus::record::write(&mut data, b"not json!"), 21);
    dir.create(0, data);
    assert_eq!(store.get(&dir, "a"), Err(KvError::Codec));
    assert_eq!(read_payload(&dir, at(0, 0, 21)), Ok(b"not json!".to_vec()));
    assert!(matches!(read_command(&dir, at(0, 0, 21)), Err(KvError::Codec)));
}

#[test]
fn an_index_entry_that_points_at_a_tombstone_reads_as_nothing() {
    let (mut store, mut dir) = opened();
    store.set(&mut dir, "a".to_string(), "1".to_string()).unwrap();
    // `["a",null]` is one byte longer than `["a","1"]`, so the lengths differ
    // and the read is a corruption; with a key one byte shorter they agree.
    let payload = Command::Remove { key: "".to_string() }.to_payload().unwrap();
    let mut data = Vec::new();
    assert_eq!(bitcaskplus::record::write(&mut data, &payload), 21);
    dir.create(0, data);
    assert_eq!(store.get(&dir, "a"), Ok(None));
}

#[test]
fn records_lie_back_to_back_in_the_active_segment() {
    let (mut store, mut dir) = opened();
    assert_eq!(store.active(), 0);
    assert_eq!(dir.file_nums(), vec![0]);
    store.set(&mut dir, "a".to_string(), "1".to_string()).unwrap();
    store.set(&mut dir, "b".to_string(), "2".to_string()).unwrap();
    store.set(&mut dir, "a".to_string(), "333".to_string()).unwrap();
    assert_eq!(store.locate("a"), Some(at(0, 42, 23)));
    assert_eq!(store.locate("b"), Some(at(0, 21, 21)));
    assert_eq!(store.locate("c"), None);
    assert_eq!(bytes_of(&dir, 0).len(), 65);
    assert_eq!(read_payload(&dir, at(0, 21, 21)), Ok(b"[\"b\",\"2\"]".to_vec()));
    assert_eq!(read_payload(&dir, at(0, 21, 22)), Err(KvError::Corruption));
    assert_eq!(read_payload(&dir, at(0, 22, 21)), Err(KvError::Corruption));
    assert!(read_command(&dir, at(0, 42, 23)).unwrap().same(&Command::Put {
        key: "a".to_string(),
        value: "333".to_string()
    }));
}

#[test]
fn dead_bytes_are_counted_exactly() {
    let (mut store, mut dir) = opened();
    assert_eq!(store.uncompacted(), 0);
    store.set(&mut dir, "a".to_string(), "1".to_string()).unwrap();
    assert_eq!(store.uncompacted(), 0);
    store.set(&mut dir, "a".to_string(), "22".to_string()).unwrap();
    assert_eq!(store.uncompacted(), 21);
    store.set(&mut dir, "b".to_string(), "2".to_string()).unwrap();
    assert_eq!(store.uncompacted(), 21);
    // The displaced record (22 bytes) and the tombstone (12 + 10 bytes).
    store.remove(&mut dir, "a").unwrap();
    assert_eq!(store.uncompacted(), 21 + 22 + 22);
    // Recovery counts the same.
    let again = BitCaskPlus::open(&mut dir).unwrap();
    assert_eq!(again.uncompacted(), 65);
    assert_eq!(again.active(), 0);
}

#[test]
fn a_fresh_store_creates_its_segment_on_the_first_write() {
    let mut dir = LogDir::new();
    let mut store = BitCaskPlus::new();
    assert_eq!(store.active(), 0);
    assert_eq!(store.uncompacted(), 0);
    assert_eq!(store.get(&dir, "a"), Ok(None));
    assert!(dir.file_nums().is_empty());
    store.set(&mut dir, "a".to_string(), "1".to_string()).unwrap();
    assert_eq!(dir.file_nums(), vec![0]);
    assert_eq!(store.locate("a"), Some(at(0, 0, 21)));
}

#[test]
fn open_replays_generations_in_order() {
    let mut dir = LogDir::new();
    let mut first = Vec::new();
    bitcaskplus::record::write(&mut first, b"[\"a\",\"old\"]");
    bitcaskplus::record::write(&mut first, b"[\"b\",\"1\"]");
    let mut second = Vec::new();
    bitcaskplus::record::write(&mut second, b"[\"a\",\"new\"]");
    bitcaskplus::record::write(&mut second, b"[\"b\",null]");
    // Put in against the order of the generations.
    dir.create(9, second);
    dir.create(4, first);
    let store = BitCaskPlus::open(&mut dir).unwrap();
    assert_eq!(store.get(&dir, "a"), Ok(Some("new".to_string())));
    assert_eq!(store.get(&dir, "b"), Ok(None));
    assert_eq!(store.locate("a"), Some(at(9, 0, 23)));
    assert_eq!(store.active(), 9);
    assert_eq!(store.uncompacted(), 23 + 21 + 22);
    assert_eq!(dir.file_nums(), vec![4, 9]);
}

#[test]
fn open_after_a_torn_tail_appends_to_a_fresh_generation() {
    let (mut store, mut dir) = opened();
    store.set(&mut dir, "a".to_string(), "1".to_string()).unwrap();
    store.set(&mut dir, "b".to_string(), "2".to_string()).unwrap();
    let whole = bytes_of(&dir, 0);
    for cut in 1..21 {
        let mut dir = LogDir::new();
        dir.create(0, whole[..whole.len() - cut].to_vec());
        let mut store = BitCaskPlus::open(&mut dir).expect("open tolerates a torn tail");
        assert_eq!(store.get(&dir, "a"), Ok(Some("1".to_string())));
        assert_eq!(store.get(&dir, "b"), Ok(None));
        assert_eq!(store.active(), 1);
        assert_eq!(dir.file_nums(), vec![0, 1]);
        assert_eq!(bytes_of(&dir, 0).len(), whole.len() - cut);
        // What is written now is found again.
        store.set(&mut dir, "b".to_string(), "again".to_string()).unwrap();
        let again = BitCaskPlus::open(&mut dir).unwrap();
        assert_eq!(again.get(&dir, "a"), Ok(Some("1".to_string())));
        assert_eq!(again.get(&dir, "b"), Ok(Some("again".to_string())));
        assert_eq!(again.active(), 1);
    }
}

#[test]
fn open_stops_at_a_corrupt_record_and_deletes_nothing() {
    let (mut store, mut dir) = opened();
    store.set(&mut dir, "a".to_string(), "1".to_string()).unwrap();
    store.set(&mut dir, "b".to_string(), "2".to_string()).unwrap();
    store.set(&mut dir, "c".to_string(), "3".to_string()).unwrap();
    let mut data = dir.take(0).unwrap();
    data[21 + 13] ^= 0xff;
    let damaged = data.clone();
    dir.create(0, data);
    let store = BitCaskPlus::open(&mut dir).unwrap();
    assert_eq!(store.get(&dir, "a"), Ok(Some("1".to_string())));
    assert_eq!(store.get(&dir, "b"), Ok(None));
    assert_eq!(store.get(&dir, "c"), Ok(None));
    assert_eq!(bytes_of(&dir, 0), damaged);
    assert_eq!(store.active(), 1);
}

#[test]
fn open_fails_only_when_no_generation_is_left() {
    let mut dir = LogDir::new();
    dir.create(u64::MAX, vec![1, 2, 3]);
    assert!(matches!(BitCaskPlus::open(&mut dir), Err(KvError::Io)));
    assert_eq!(dir.file_nums(), vec![u64::MAX]);
    let mut dir = LogDir::new();
    dir.create(u64::MAX, Vec::new());
    let store = BitCaskPlus::open(&mut dir).unwrap();
    assert_eq!(store.active(), u64::MAX);
}

#[test]
fn compaction_rewrites_the_live_records_only() {
    let (mut store, mut dir) = opened();
    store.set(&mut dir, "a".to_string(), "1".to_string()).unwrap();
    store.set(&mut dir, "b".to_string(), "2".to_string()).unwrap();
    store.set(&mut dir, "a".to_string(), "3".to_string()).unwrap();
    store.set(&mut dir, "c".to_string(), "4".to_string()).unwrap();
    store.remove(&mut dir, "b").unwrap();
    let before = bytes_of(&dir, 0);
    assert_eq!(before.len(), 4 * 21 + 22);
    assert_eq!(store.uncompacted(), 21 + 21 + 22);

    assert_eq!(store.compaction(&mut dir), Ok(()));

    assert_eq!(dir.file_nums(), vec![1, 2]);
    assert_eq!(store.active(), 2);
    assert_eq!(store.uncompacted(), 0);
    let copy = bytes_of(&dir, 1);
    let mut expected = before[42..63].to_vec();
    expected.extend_from_slice(&before[63..84]);
    assert_eq!(copy, expected);
    assert!(bytes_of(&dir, 2).is_empty());
    assert_eq!(store.locate("a"), Some(at(1, 0, 21)));
    assert_eq!(store.locate("c"), Some(at(1, 21, 21)));
    assert_eq!(store.locate("b"), None);
    assert_eq!(store.get(&dir, "a"), Ok(Some("3".to_string())));
    assert_eq!(store.get(&dir, "b"), Ok(None));
    assert_eq!(store.get(&dir, "c"), Ok(Some("4".to_string())));

    // Writes go to the fresh generation, and all is found again.
    store.set(&mut dir, "d".to_string(), "5".to_string()).unwrap();
    assert_eq!(store.locate("d"), Some(at(2, 0, 21)));
    let again = BitCaskPlus::open(&mut dir).unwrap();
    assert_eq!(again.get(&dir, "a"), Ok(Some("3".to_string())));
    assert_eq!(again.get(&dir, "b"), Ok(None));
    assert_eq!(again.get(&dir, "c"), Ok(Some("4".to_string())));
    assert_eq!(again.get(&dir, "d"), Ok(Some("5".to_string())));
    assert_eq!(again.locate("a"), store.locate("a"));
    assert_eq!(again.locate("c"), store.locate("c"));
    assert_eq!(again.locate("d"), store.locate("d"));
    assert_eq!(again.active(), 2);
}

#[test]
fn compacting_twice_gives_the_same_live_records() {
    let (mut store, mut dir) = opened();
    for i in 0..50 {
        store.set(&mut dir, format!("k{}", i % 7), format!("v{}", i)).unwrap();
    }
    store.remove(&mut dir, "k3").unwrap();
    store.compaction(&mut dir).unwrap();
    let first = bytes_of(&dir, 1);
    store.compaction(&mut dir).unwrap();
    assert_eq!(dir.file_nums(), vec![3, 4]);
    assert_eq!(bytes_of(&dir, 3), first);
    assert_eq!(store.active(), 4);
    let last = [Some("v49"), Some("v43"), Some("v44"), None, Some("v46"), Some("v47"), Some("v48")];
    for (i, expected) in last.iter().enumerate() {
        assert_eq!(store.get(&dir, &format!("k{}", i)), Ok(expected.map(|v| v.to_string())));
    }
}

#[test]
fn compaction_of_an_empty_store_leaves_two_empty_segments() {
    let (mut store, mut dir) = opened();
    assert_eq!(store.compaction(&mut dir), Ok(()));
    assert_eq!(dir.file_nums(), vec![1, 2]);
    assert!(bytes_of(&dir, 1).is_empty());
    assert!(bytes_of(&dir, 2).is_empty());
}

#[test]
fn a_failed_compaction_changes_nothing() {
    let (mut store, mut dir) = opened();
    store.set(&mut dir, "a".to_string(), "1".to_string()).unwrap();
    store.set(&mut dir, "b".to_string(), "2".to_string()).unwrap();
    let mut data = dir.take(0).unwrap();
    data[21 + 14] ^= 0x10;
    let damaged = data.clone();
    dir.create(0, data);
    assert_eq!(store.compaction(&mut dir), Err(KvError::Corruption));
    assert_eq!(dir.file_nums(), vec![0]);
    assert_eq!(bytes_of(&dir, 0), damaged);
    assert_eq!(store.active(), 0);
    assert_eq!(store.locate("a"), Some(at(0, 0, 21)));
    assert_eq!(store.get(&dir, "a"), Ok(Some("1".to_string())));
    // The store remains usable.
    store.set(&mut dir, "b".to_string(), "3".to_string()).unwrap();
    assert_eq!(store.get(&dir, "b"), Ok(Some("3".to_string())));
    assert_eq!(store.compaction(&mut dir), Ok(()));
    assert_eq!(store.get(&dir, "b"), Ok(Some("3".to_string())));
}

#[test]
fn compaction_needs_fresh_generations() {
    let (mut store, mut dir) = opened();
    store.set(&mut dir, "a".to_string(), "1".to_string()).unwrap();
    // A segment above the active one is in the way.
    dir.create(1, Vec::new());
    assert_eq!(store.compaction(&mut dir), Err(KvError::Io));
    assert_eq!(dir.file_nums(), vec![0, 1]);
    assert_eq!(dir.take(1), Some(Vec::new()));
    // A segment is missing.
    let mut empty = LogDir::new();
    assert_eq!(store.compaction(&mut empty), Err(KvError::Io));
    assert!(empty.file_nums().is_empty());
    // No generation is left above the active one.
    let mut last = LogDir::new();
    last.create(u64::MAX - 1, Vec::new());
    let mut full = BitCaskPlus::open(&mut last).unwrap();
    assert_eq!(full.active(), u64::MAX - 1);
    assert_eq!(full.compaction(&mut last), Err(KvError::Io));
}

#[test]
fn migrate_entry_copies_a_verified_record() {
    let (mut store, mut dir) = opened();
    store.set(&mut dir, "a".to_string(), "1".to_string()).unwrap();
    store.set(&mut dir, "b".to_string(), "2".to_string()).unwrap();
    let data = bytes_of(&dir, 0);
    let mut out = vec![7u8];
    assert_eq!(migrate_entry(&dir, at(0, 21, 21), &mut out), Ok(()));
    assert_eq!(&out[1..], &data[21..42]);
    assert_eq!(migrate_entry(&dir, at(0, 21, 20), &mut out), Err(KvError::Corruption));
    assert_eq!(migrate_entry(&dir, at(3, 0, 21), &mut out), Err(KvError::Io));
    assert_eq!(migrate_entry(&dir, at(0, 42, 21), &mut out), Err(KvError::Corruption));
    assert_eq!(out.len(), 22);
}

#[test]
fn a_write_compacts_once_the_threshold_is_passed() {
    let (mut store, mut dir) = opened();
    let value = "v".repeat(1000);
    let record = 12 + "[\"k\",\"\"]".len() as u64 + 1000;
    let mut writes: u64 = 0;
    while store.active() == 0 {
        store.set(&mut dir, "k".to_string(), value.clone()).unwrap();
        writes += 1;
        if store.active() == 0 {
            assert_eq!(store.uncompacted(), (writes - 1) * record);
            assert!(store.uncompacted() <= COMPACTION_THRESHOLD);
        }
    }
    // The first write whose displaced record passes the threshold compacts.
    assert_eq!(writes, COMPACTION_THRESHOLD / record + 2);
    assert_eq!(store.uncompacted(), 0);
    assert_eq!(store.active(), 2);
    assert_eq!(dir.file_nums(), vec![1, 2]);
    assert_eq!(bytes_of(&dir, 1).len() as u64, record);
    assert_eq!(store.get(&dir, "k"), Ok(Some(value)));
}

#[test]
fn a_value_stays_until_its_key_is_written_again() {
    let (mut store, mut dir) = opened();
    store.set(&mut dir, "k".to_string(), "kept".to_string()).unwrap();
    for i in 0..200 {
        store.set(&mut dir, format!("other{}", i % 5), format!("{}", i)).unwrap();
        if i % 3 == 0 {
            store.remove(&mut dir, &format!("other{}", i % 5)).unwrap();
        }
        if i % 50 == 49 {
            store.compaction(&mut dir).unwrap();
        }
        assert_eq!(store.get(&dir, "k"), Ok(Some("kept".to_string())));
    }
    store.remove(&mut dir, "k").unwrap();
    for i in 0..20 {
        store.set(&mut dir, format!("other{}", i), "x".to_string()).unwrap();
        assert_eq!(store.get(&dir, "k"), Ok(None));
    }
    store.compaction(&mut dir).unwrap();
    assert_eq!(store.get(&dir, "k"), Ok(None));
}

#[test]
fn reopening_gives_the_same_index() {
    let (mut store, mut dir) = opened();
    let keys: Vec<String> = (0..20).map(|i| format!("key{}", i)).collect();
    for round in 0..6 {
        for (i, key) in keys.iter().enumerate() {
            if (i + round) % 4 == 0 {
                let _ = store.remove(&mut dir, key);
            } else {
                store.set(&mut dir, key.clone(), format!("{}-{}", round, i)).unwrap();
            }
        }
        if round == 3 {
            store.compaction(&mut dir).unwrap();
        }
        let again = BitCaskPlus::open(&mut dir).unwrap();
        for key in &keys {
            assert_eq!(again.locate(key), store.locate(key));
            assert_eq!(again.get(&dir, key), store.get(&dir, key));
        }
        assert_eq!(again.active(), store.active());
        assert_eq!(again.uncompacted(), store.uncompacted());
    }
}
