use polodb_core::mem_table::{MemTable, Root};
use polodb_core::multi_cursor::MultiCursor;
use polodb_core::lsm_session::LsmSession;

fn level_of(pairs: &[(&[u8], &[u8])]) -> Root {
    let mut l = Root::new();
    for (k, v) in pairs {
        l.set(k.to_vec(), Some(v.to_vec()));
    }
    l
}

fn collect(mut c: MultiCursor) -> Vec<(Vec<u8>, Vec<u8>)> {
    let mut out = Vec::new();
    while let (Some(k), Some(v)) = (c.key(), c.value()) {
        out.push((k, v));
        c.next();
    }
    out
}

#[test]
fn mem_value_wins_over_backend_level() {
    let level = level_of(&[(b"k", b"vb")]);
    let mut t = MemTable::new();
    t.put(b"k", b"vm", false);
    let c = MultiCursor::new(t.root(), vec![level]);
    assert_eq!(c.key(), Some(b"k".to_vec()));
    assert_eq!(c.value(), Some(b"vm".to_vec()));
}

#[test]
fn mem_tombstone_suppresses_backend_value() {
    let level = level_of(&[(b"gone", b"vb"), (b"kept", b"w")]);
    let mut t = MemTable::new();
    t.delete(b"gone", false);
    let c = MultiCursor::new(t.root(), vec![level]);
    let all = collect(c);
    assert_eq!(all, vec![(b"kept".to_vec(), b"w".to_vec())]);
}

#[test]
fn backend_value_shows_when_mem_silent() {
    let level = level_of(&[(b"k", b"vb")]);
    let t = MemTable::new();
    let c = MultiCursor::new(t.root(), vec![level]);
    assert_eq!(c.value(), Some(b"vb".to_vec()));
}

#[test]
fn later_level_wins_over_earlier() {
    let low = level_of(&[(b"k", b"old")]);
    let high = level_of(&[(b"k", b"new")]);
    let t = MemTable::new();
    let c = MultiCursor::new(t.root(), vec![low, high]);
    assert_eq!(c.value(), Some(b"new".to_vec()));
}

#[test]
fn merged_iteration_is_ordered() {
    let level = level_of(&[(b"b", b"2"), (b"d", b"4")]);
    let mut t = MemTable::new();
    t.put(b"a", b"1", false);
    t.put(b"c", b"3", false);
    let c = MultiCursor::new(t.root(), vec![level]);
    let all = collect(c);
    assert_eq!(
        all,
        vec![
            (b"a".to_vec(), b"1".to_vec()),
            (b"b".to_vec(), b"2".to_vec()),
            (b"c".to_vec(), b"3".to_vec()),
            (b"d".to_vec(), b"4".to_vec()),
        ]
    );
}

#[test]
fn prefix_keys_order_lexicographically() {
    // A key that is a strict prefix of another sorts first.
    let mut t = MemTable::new();
    t.put(b"ab", b"2", false);
    t.put(b"a", b"1", false);
    t.put(b"abc", b"3", false);
    let c = MultiCursor::new(t.root(), Vec::new());
    let all = collect(c);
    assert_eq!(
        all,
        vec![
            (b"a".to_vec(), b"1".to_vec()),
            (b"ab".to_vec(), b"2".to_vec()),
            (b"abc".to_vec(), b"3".to_vec()),
        ]
    );
}

#[test]
fn empty_key_and_empty_value_are_allowed() {
    let mut t = MemTable::new();
    t.put(b"", b"v", false);
    t.put(b"k", b"", false);
    let r = t.root();
    assert_eq!(r.get(&Vec::new()), Some(b"v".to_vec()));
    assert_eq!(r.get(&b"k".to_vec()), Some(Vec::new()));
    assert_eq!(t.store_bytes(), 1);
}

#[test]
fn update_cursor_current_replaces_and_accounts() {
    let mut session = LsmSession::new(0, MemTable::new(), false);
    session.put(b"k", b"aaaa").unwrap();
    let mut cursor = MultiCursor::new(session.mem_table.root(), Vec::new());
    let replaced = session.update_cursor_current(&mut cursor, b"bb").unwrap();
    assert!(replaced);
    assert_eq!(session.mem_table.store_bytes(), 2);
    assert_eq!(session.mem_table.root().get(&b"k".to_vec()), Some(b"bb".to_vec()));
}

#[test]
fn update_cursor_current_fresh_insert_from_backend() {
    // The key lives only in a backend level: updating through the
    // cursor inserts it into the MemTable and reports no replacement.
    let level = level_of(&[(b"k", b"vb")]);
    let mut session = LsmSession::new(0, MemTable::new(), false);
    let mut cursor = MultiCursor::new(session.mem_table.root(), vec![level]);
    let replaced = session.update_cursor_current(&mut cursor, b"new").unwrap();
    assert!(!replaced);
    assert_eq!(session.mem_table.store_bytes(), 3);
    assert_eq!(session.mem_table.root().get(&b"k".to_vec()), Some(b"new".to_vec()));
}

#[test]
fn delete_cursor_current_tombstones_and_accounts() {
    let mut session = LsmSession::new(0, MemTable::new(), false);
    session.put(b"k", b"aaaa").unwrap();
    let mut cursor = MultiCursor::new(session.mem_table.root(), Vec::new());
    let removed = session.delete_cursor_current(&mut cursor).unwrap();
    assert!(removed);
    assert_eq!(session.mem_table.store_bytes(), 0);
    assert_eq!(session.mem_table.root().get(&b"k".to_vec()), None);
}

#[test]
fn cursor_mutation_on_exhausted_cursor_is_noop() {
    let mut session = LsmSession::new(0, MemTable::new(), false);
    let mut cursor = MultiCursor::new(session.mem_table.root(), Vec::new());
    assert_eq!(cursor.key(), None);
    assert_eq!(session.update_cursor_current(&mut cursor, b"x").unwrap(), false);
    assert_eq!(session.delete_cursor_current(&mut cursor).unwrap(), false);
    assert_eq!(session.mem_table.store_bytes(), 0);
}
