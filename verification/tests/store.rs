use bitcaskplus::error::KvError;
use bitcaskplus::segment::LogDir;
use bitcaskplus::store::BitCaskPlus;

type Result<T> = std::result::Result<T, KvError>;

fn dir_size(dir: &LogDir) -> u64 {
    let mut total: u64 = 0;
    for g in dir.file_nums() {
        total += dir.segment(g).expect("listed segment").data.len() as u64;
    }
    total
}

#[test]
fn hash_map_works() -> Result<()> {
    let mut dir = LogDir::new();
    let mut store = BitCaskPlus::new();

    store.set(&mut dir, "key1".to_owned(), "value1".to_owned())?;
    store.set(&mut dir, "key2".to_owned(), "value2".to_owned())?;

    assert_eq!(store.get(&dir, "key1")?, Some("value1".to_string()));
    assert_eq!(store.get(&dir, "key2")?, Some("value2".to_string()));

    Ok(())
}

// Should get previously stored value.
#[test]
fn get_stored_value() -> Result<()> {
    let mut dir = LogDir::new();
    let mut store = BitCaskPlus::open(&mut dir)?;
    store.set(&mut dir, "key1".to_owned(), "value1".to_owned())?;
    store.set(&mut dir, "key2".to_owned(), "value2".to_owned())?;

    assert_eq!(store.get(&dir, "key1")?, Some("value1".to_string()));
    assert_eq!(store.get(&dir, "key2")?, Some("value2".to_string()));

    // Open from the directory again and check persistent data.
    drop(store);
    let store = BitCaskPlus::open(&mut dir)?;
    assert_eq!(store.get(&dir, "key1")?, Some("value1".to_string()));
    assert_eq!(store.get(&dir, "key2")?, Some("value2".to_string()));

    Ok(())
}

// Should overwrite existent value.
#[test]
fn overwrite_value() -> Result<()> {
    let mut dir = LogDir::new();
    let mut store = BitCaskPlus::open(&mut dir)?;

    store.set(&mut dir, "key1".to_string(), "value1".to_string())?;
    assert_eq!(store.get(&dir, "key1")?, Some("value1".to_string()));
    store.set(&mut dir, "key1".to_string(), "value2".to_string())?;
    assert_eq!(store.get(&dir, "key1")?, Some("value2".to_string()));

    // Open from the directory again and check persistent data.
    drop(store);
    let mut store = BitCaskPlus::open(&mut dir)?;
    assert_eq!(store.get(&dir, "key1")?, Some("value2".to_string()));
    store.set(&mut dir, "key1".to_string(), "value3".to_string())?;
    assert_eq!(store.get(&dir, "key1")?, Some("value3".to_string()));

    Ok(())
}

// Should get `None` when getting a non-existent key.
#[test]
fn get_non_existent_value() -> Result<()> {
    let mut dir = LogDir::new();
    let mut store = BitCaskPlus::open(&mut dir)?;

    store.set(&mut dir, "key1".to_string(), "value1".to_string())?;
    assert_eq!(store.get(&dir, "key2")?, None);

    // Open from the directory again and check persistent data.
    drop(store);
    let store = BitCaskPlus::open(&mut dir)?;
    assert_eq!(store.get(&dir, "key2")?, None);

    Ok(())
}

#[test]
fn remove_non_existent_key() -> Result<()> {
    let mut dir = LogDir::new();
    let mut store = BitCaskPlus::open(&mut dir)?;
    assert!(store.remove(&mut dir, "key1").is_err());
    Ok(())
}

#[test]
fn remove_key() -> Result<()> {
    let mut dir = LogDir::new();
    let mut store = BitCaskPlus::open(&mut dir)?;
    store.set(&mut dir, "key1".to_string(), "value1".to_string())?;
    assert!(store.remove(&mut dir, "key1").is_ok());
    assert_eq!(store.get(&dir, "key1")?, None);
    Ok(())
}

// Insert data until total size of the directory decreases.
// Test data correctness after compaction.
#[test]
fn compaction() -> Result<()> {
    let mut dir = LogDir::new();
    let mut store = BitCaskPlus::open(&mut dir)?;

    let mut current_size = dir_size(&dir);
    for iter in 0..1000 {
        for key_id in 0..1000 {
            let key = format!("key{}", key_id);
            let value = format!("{}", iter);
            store.set(&mut dir, key, value)?;
        }

        let new_size = dir_size(&dir);
        if new_size > current_size {
            current_size = new_size;
            continue;
        }
        // Compaction triggered.
        drop(store);
        // reopen and check content.
        let store = BitCaskPlus::open(&mut dir)?;
        for key_id in 0..1000 {
            let key = format!("key{}", key_id);
            assert_eq!(store.get(&dir, &key)?, Some(format!("{}", iter)));
        }
        return Ok(());
    }

    panic!("No compaction detected");
}
