use polodb_core::mem_table::MemTable;

#[test]
fn put_then_get() {
    let mut t = MemTable::new();
    t.put(b"alpha", b"one", false);
    t.put(b"beta", b"two", false);
    let r = t.root();
    assert_eq!(r.get(&b"alpha".to_vec()), Some(b"one".to_vec()));
    assert_eq!(r.get(&b"beta".to_vec()), Some(b"two".to_vec()));
    assert_eq!(r.get(&b"gamma".to_vec()), None);
}

#[test]
fn overwrite_replaces_value() {
    let mut t = MemTable::new();
    t.put(b"k", b"first", false);
    t.put(b"k", b"second", false);
    let r = t.root();
    assert_eq!(r.get(&b"k".to_vec()), Some(b"second".to_vec()));
}

#[test]
fn delete_reads_as_absent() {
    let mut t = MemTable::new();
    t.put(b"k", b"v", false);
    t.delete(b"k", false);
    let r = t.root();
    assert_eq!(r.get(&b"k".to_vec()), None);
}

#[test]
fn snapshot_isolation() {
    // A root taken after the first put still reads the first value
    // after a second put replaces it in the live table.
    let mut t = MemTable::new();
    t.put(b"k", b"v1", false);
    let r1 = t.root();
    t.put(b"k", b"v2", false);
    let r2 = t.root();
    assert_eq!(r1.get(&b"k".to_vec()), Some(b"v1".to_vec()));
    assert_eq!(r2.get(&b"k".to_vec()), Some(b"v2".to_vec()));
}

#[test]
fn snapshot_survives_delete() {
    let mut t = MemTable::new();
    t.put(b"k", b"v1", false);
    let r1 = t.root();
    t.delete(b"k", false);
    assert_eq!(r1.get(&b"k".to_vec()), Some(b"v1".to_vec()));
    assert_eq!(t.root().get(&b"k".to_vec()), None);
}

#[test]
fn store_bytes_tracks_live_values() {
    let mut t = MemTable::new();
    assert_eq!(t.store_bytes(), 0);
    t.put(b"a", b"1", false);
    assert_eq!(t.store_bytes(), 1);
    t.put(b"b", b"23", false);
    assert_eq!(t.store_bytes(), 3);
    // Overwriting swaps the old length for the new one.
    t.put(b"a", b"xyz", false);
    assert_eq!(t.store_bytes(), 5);
    // Deleting frees only the value's bytes.
    t.delete(b"a", false);
    assert_eq!(t.store_bytes(), 2);
    // Deleting an absent key changes nothing.
    t.delete(b"missing", false);
    assert_eq!(t.store_bytes(), 2);
    // Deleting a tombstoned key again changes nothing.
    t.delete(b"a", false);
    assert_eq!(t.store_bytes(), 2);
}

#[test]
fn backend_applying_flag_keeps_accounting_exact() {
    // The accounting is exact whether a write comes from the primary
    // session or is replayed from the backend: no double counting.
    let mut t = MemTable::new();
    t.put(b"a", b"12", true);
    t.put(b"a", b"12", false);
    assert_eq!(t.store_bytes(), 2);
}
