use polodb_core::db::{Config, Database};
use polodb_core::backend::{Backend, MemoryBackend};
use polodb_core::mem_table::MemTable;
use polodb_core::{DbErr, TransactionType};

#[test]
fn get_version_is_fixed() {
    assert_eq!(Database::get_version(), "0.1.0".to_string());
}

#[test]
fn open_memory_starts_empty() {
    let db = Database::open_memory().unwrap();
    assert_eq!(db.list_collection_names().unwrap().len(), 0);
    let m = db.metrics();
    assert_eq!(m.store_bytes, 0);
    assert_eq!(m.next_session_id, 0);
}

#[test]
fn create_collection_registers_once() {
    let mut db = Database::open_memory().unwrap();
    db.create_collection("books").unwrap();
    db.create_collection("books").unwrap();
    db.create_collection("authors").unwrap();
    let names = db.list_collection_names().unwrap();
    assert_eq!(names, vec!["books".to_string(), "authors".to_string()]);
}

#[test]
fn create_collection_with_session_leaves_session_alone() {
    let mut db = Database::open_memory().unwrap();
    let mut session = db.start_session().unwrap();
    db.create_collection_with_session("books", &mut session).unwrap();
    let names = db.list_collection_names_with_session(&mut session).unwrap();
    assert_eq!(names, vec!["books".to_string()]);
    assert_eq!(session.id(), 0);
}

#[test]
fn set_log_controls_new_sessions() {
    let mut db = Database::open_memory().unwrap();
    let off = db.start_session().unwrap();
    assert!(off.log_buffer().is_none());
    db.set_log(true);
    let on = db.start_session().unwrap();
    assert!(on.log_buffer().is_some());
}

#[test]
fn open_memory_with_config_enables_logging() {
    let mut db = Database::open_memory_with_config(Config { enable_log: true }).unwrap();
    let s = db.start_session().unwrap();
    assert!(s.log_buffer().is_some());
}

#[test]
fn session_ids_are_monotonic() {
    let mut db = Database::open_memory().unwrap();
    let a = db.start_session().unwrap();
    let b = db.start_session().unwrap();
    assert_eq!(a.id(), 0);
    assert_eq!(b.id(), 1);
}

#[test]
fn commit_session_persists_bytes_and_resets_session() {
    let mut db = Database::open_memory_with_config(Config { enable_log: true }).unwrap();
    let mut session = db.start_session().unwrap();
    session.start_transaction(TransactionType::Write).unwrap();
    session.put(b"a", b"12").unwrap();
    session.put(b"b", b"3").unwrap();
    db.commit_session(&mut session).unwrap();
    assert_eq!(db.metrics().store_bytes, 3);
    assert_eq!(session.id(), 1);
    assert_eq!(session.log_buffer(), Some(&[][..]));
}

#[test]
fn second_write_transaction_is_rejected() {
    let mut db = Database::open_memory().unwrap();
    let _tx = db.backend.begin_write().unwrap();
    assert_eq!(db.backend.begin_write().err(), Some(DbErr::LockFailure));
    // Committing a session needs the write scope too.
    let mut session = db.start_session().unwrap();
    assert_eq!(db.commit_session(&mut session), Err(DbErr::LockFailure));
}

#[test]
fn backend_trait_round() {
    let mut be = MemoryBackend::open_path("anywhere").unwrap();
    let read = be.transaction().unwrap();
    assert_eq!(read.levels.len(), 0);
    let tx = be.write_transaction().unwrap();
    assert!(be.write_transaction().is_err());
    let mut table = MemTable::new();
    table.put(b"k", b"v", false);
    be.commit(tx, table.root());
    assert_eq!(be.levels.len(), 1);
    // The earlier read snapshot still shows no levels.
    assert_eq!(read.levels.len(), 0);
}

#[test]
fn client_session_transaction_guard() {
    let mut db = Database::open_memory().unwrap();
    let mut session = db.start_session().unwrap();
    session.start_transaction(TransactionType::Write).unwrap();
    assert_eq!(
        session.start_transaction(TransactionType::Write),
        Err(DbErr::TransactionConflict)
    );
}
