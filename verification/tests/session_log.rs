use polodb_core::mem_table::MemTable;
use polodb_core::multi_cursor::MultiCursor;
use polodb_core::lsm_session::LsmSession;
use polodb_core::{wal, DbErr, TransactionType};

#[test]
fn transaction_guard() {
    let mut s = LsmSession::new(0, MemTable::new(), false);
    assert!(s.start_transaction(TransactionType::Write).is_ok());
    // A second and a third start both fail while one is active.
    assert_eq!(
        s.start_transaction(TransactionType::Write),
        Err(DbErr::TransactionConflict)
    );
    assert_eq!(
        s.start_transaction(TransactionType::Read),
        Err(DbErr::TransactionConflict)
    );
    s.finished_transaction();
    assert!(s.start_transaction(TransactionType::Read).is_ok());
}

#[test]
fn finished_transaction_advances_generation() {
    let mut s = LsmSession::new(7, MemTable::new(), true);
    assert_eq!(s.id(), 7);
    s.start_transaction(TransactionType::Write).unwrap();
    s.put(b"k", b"v").unwrap();
    s.finished_transaction();
    assert_eq!(s.id(), 8);
    assert!(s.transaction().is_none());
    // The log buffer resets; the MemTable keeps its contents.
    assert_eq!(s.log_buffer(), Some(&[][..]));
    assert_eq!(s.mem_table.root().get(&b"k".to_vec()), Some(b"v".to_vec()));
}

#[test]
fn scenario_log_and_contents() {
    // put a=1, put b=2, delete a: the log holds exactly those three
    // records; only b survives; one live value byte remains.
    let mut s = LsmSession::new(0, MemTable::new(), true);
    s.put(b"a", b"1").unwrap();
    s.put(b"b", b"2").unwrap();
    s.delete(b"a").unwrap();

    let expected: Vec<u8> = vec![
        wal::WRITE, 2, b'a', 2, b'1', // write a = 1 (vli of 1 is the byte 2)
        wal::WRITE, 2, b'b', 2, b'2', // write b = 2
        wal::DELETE, 2, b'a', // delete a
    ];
    assert_eq!(s.log_buffer(), Some(&expected[..]));

    let root = s.mem_table.root();
    assert_eq!(root.get(&b"a".to_vec()), None);
    assert_eq!(root.get(&b"b".to_vec()), Some(b"2".to_vec()));
    assert_eq!(s.mem_table.store_bytes(), 1);
}

#[test]
fn log_replay_reproduces_contents() {
    // Run an interleaving of puts, deletes and cursor mutations, then
    // replay the log buffer against an empty MemTable and compare.
    let mut s = LsmSession::new(0, MemTable::new(), true);
    s.put(b"a", b"1").unwrap();
    s.put(b"b", b"two").unwrap();
    s.put(b"c", b"333").unwrap();
    s.delete(b"b").unwrap();
    let mut cursor = MultiCursor::new(s.mem_table.root(), Vec::new());
    // The cursor stands on the smallest live key, "a".
    assert_eq!(cursor.key(), Some(b"a".to_vec()));
    s.update_cursor_current(&mut cursor, b"ONE").unwrap();
    s.delete_cursor_current(&mut cursor).unwrap();

    let log = s.log_buffer().unwrap().to_vec();
    let mut replayed = MemTable::new();
    wal::replay(&log, &mut replayed).unwrap();

    let want = s.mem_table.root();
    let got = replayed.root();
    for key in [&b"a"[..], b"b", b"c", b"missing"] {
        assert_eq!(got.get(&key.to_vec()), want.get(&key.to_vec()));
    }
    assert_eq!(replayed.store_bytes(), s.mem_table.store_bytes());
}

#[test]
fn replay_of_malformed_log_is_corruption() {
    let mut t = MemTable::new();
    // An unknown tag byte.
    assert_eq!(wal::replay(&vec![9u8], &mut t), Err(DbErr::Corruption));
    // A write record cut off before its value.
    let truncated: Vec<u8> = vec![wal::WRITE, 2, b'a'];
    assert_eq!(wal::replay(&truncated, &mut t), Err(DbErr::Corruption));
}

#[test]
fn replay_of_empty_log_is_empty() {
    let mut t = MemTable::new();
    assert!(wal::replay(&Vec::new(), &mut t).is_ok());
    assert_eq!(t.store_bytes(), 0);
}

#[test]
fn session_without_logging_has_no_buffer() {
    let mut s = LsmSession::new(0, MemTable::new(), false);
    s.put(b"k", b"v").unwrap();
    assert!(s.log_buffer().is_none());
}
