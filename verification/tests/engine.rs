use kvs::fs::File;
use kvs::{KvStore, KvsError, Result};

fn reopen(store: KvStore) -> KvStore {
    KvStore::open(store.cancel()).expect("the segments of a closed engine open again")
}

fn total_size(segments: &Vec<File>) -> usize {
    let mut sum = 0;
    for segment in segments.iter() {
        sum += segment.pos();
    }
    sum
}

// Should get previously stored value.
#[test]
fn get_stored_value() -> Result<()> {
    let mut store = KvStore::open(Vec::new())?;

    store.set("key1".into(), "value1".into())?;
    store.set("key2".into(), "value2".into())?;

    assert_eq!(store.get("key1".into())?, Some("value1".into()));
    assert_eq!(store.get("key2".into())?, Some("value2".into()));

    // Open from the segments again and check persistent data.
    let store = reopen(store);
    assert_eq!(store.get("key1".into())?, Some("value1".into()));
    assert_eq!(store.get("key2".into())?, Some("value2".into()));

    Ok(())
}

// Should overwrite existent value.
#[test]
fn overwrite_value() -> Result<()> {
    let mut store = KvStore::open(Vec::new())?;

    store.set("key1".into(), "value1".into())?;
    assert_eq!(store.get("key1".into())?, Some("value1".into()));
    store.set("key1".into(), "value2".into())?;
    assert_eq!(store.get("key1".into())?, Some("value2".into()));

    // Open from the segments again and check persistent data.
    let mut store = reopen(store);
    assert_eq!(store.get("key1".into())?, Some("value2".into()));
    store.set("key1".into(), "value3".into())?;
    assert_eq!(store.get("key1".into())?, Some("value3".into()));

    Ok(())
}

// Should get `None` when getting a non-existent key.
#[test]
fn get_non_existent_value() -> Result<()> {
    let mut store = KvStore::open(Vec::new())?;

    store.set("key1".into(), "value1".into())?;
    assert_eq!(store.get("key2".into())?, None);

    // Open from the segments again and check persistent data.
    let store = reopen(store);
    assert_eq!(store.get("key2".into())?, None);

    Ok(())
}

#[test]
fn remove_non_existent_key() -> Result<()> {
    let mut store = KvStore::open(Vec::new())?;
    assert!(store.del("key1".into()).is_err());
    Ok(())
}

#[test]
fn remove_key() -> Result<()> {
    let mut store = KvStore::open(Vec::new())?;
    store.set("key1".into(), "value1".into())?;
    assert!(store.del("key1".into()).is_ok());
    assert_eq!(store.get("key1".into())?, None);
    Ok(())
}

// Insert data until the total size of the segments stops growing.
// Test data correctness after compaction.
#[test]
fn compaction() -> Result<()> {
    let mut store = KvStore::open(Vec::new())?;

    let mut current_size = 0;
    for iter in 0..1000 {
        for key_id in 0..1000 {
            let key = format!("key{}", key_id);
            let value = format!("{}", iter);
            store.set(key.into(), value.into())?;
        }
        store.compact()?;

        let segments = store.cancel();
        let new_size = total_size(&segments);
        store = KvStore::open(segments)?;
        if new_size > current_size {
            current_size = new_size;
            continue;
        }
        // Compaction reclaimed the space of the records written over.

        // reopen and check content.
        let store = reopen(store);
        for key_id in 0..1000 {
            let key = format!("key{}", key_id);
            assert_eq!(store.get(key.into())?, Some(format!("{}", iter).into()));
        }
        return Ok(());
    }

    panic!("No compaction detected");
}

#[test]
fn empty_engine_holds_nothing() -> Result<()> {
    let store = KvStore::open(Vec::new())?;
    assert_eq!(store.get("x".into())?, None);
    Ok(())
}

#[test]
fn remove_twice_reports_key_not_found() -> Result<()> {
    let mut store = KvStore::open(Vec::new())?;
    store.set("k".into(), "v".into())?;
    assert_eq!(store.del("k".into()), Ok(()));
    assert_eq!(store.get("k".into())?, None);
    assert_eq!(store.del("k".into()), Err(KvsError::KeyNotFound));
    Ok(())
}
