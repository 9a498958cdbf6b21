use logkv::memory_store::MemoryStore;
use logkv::store::Store;

#[test]
fn test_memory_store_get() {
    let mut store = MemoryStore::new();
    store.set("name".to_string(), "jojo".to_string());
    assert_eq!(
        store.get(&"name".to_string()),
        Some(&"jojo".to_string()),
        "Get() returned unexpected value"
    );
}

#[test]
fn test_memory_store_invalid_get() {
    let store = MemoryStore::new();
    assert_eq!(
        store.get(&"some rando key".to_string()),
        None,
        "Get returned unexpected value"
    )
}

#[test]
fn test_memory_store_close() {
    let store = MemoryStore::new();
    assert_eq!(store.close(), true, "close() failed");
}

#[test]
fn memory_store_last_set_wins() {
    let mut store = MemoryStore::new();
    store.set("k".to_string(), "first".to_string());
    store.set("k".to_string(), "second".to_string());
    assert_eq!(store.get(&"k".to_string()), Some(&"second".to_string()));
}

#[test]
fn memory_store_keeps_other_keys() {
    let mut store = MemoryStore::new();
    store.set("a".to_string(), "1".to_string());
    store.set("b".to_string(), "2".to_string());
    store.set("a".to_string(), "3".to_string());
    assert_eq!(store.get(&"a".to_string()), Some(&"3".to_string()));
    assert_eq!(store.get(&"b".to_string()), Some(&"2".to_string()));
    assert_eq!(store.get(&"c".to_string()), None);
}

#[test]
fn memory_store_can_be_read_after_close() {
    let mut store = MemoryStore::new();
    store.set("a".to_string(), "1".to_string());
    assert!(store.close());
    assert_eq!(store.get(&"a".to_string()), Some(&"1".to_string()));
}

fn fill<S: Store>(store: &mut S) -> bool {
    store.set("x".to_string(), "y".to_string());
    store.get(&"x".to_string()) == Some(&"y".to_string()) && store.close()
}

#[test]
fn memory_store_serves_code_written_for_any_store() {
    let mut store = MemoryStore::new();
    assert!(fill(&mut store));
}
