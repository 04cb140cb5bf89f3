//! The process-facing façade: one exclusive owner of the backend and
//! the collection registry, handing out sessions and committing their
//! work to the durable tier.

use vstd::prelude::*;
use crate::{DbErr, DbResult, TransactionType};
use crate::backend::{MemoryBackend, levels_bytes};
use crate::lsm_session::LsmSession;
use crate::mem_table::MemTable;
use crate::wal::{LogOp, rec_put, rec_delete};

verus! {

/// Construction-time configuration. Logging is explicit here rather
/// than an ambient process-wide toggle, so independent databases can
/// run with independent settings.
pub struct Config {
    pub enable_log: bool,
}

impl Default for Config {
    /// Logging starts disabled.
    fn default() -> (r: Config)
        ensures
            r.enable_log == false,
    {
        Config { enable_log: false }
    }
}

/// A snapshot of the database's observability counters: the live
/// bytes committed to the backend and the next session generation.
#[derive(Clone, Copy, Debug, PartialEq, Eq, Structural)]
pub struct Metrics {
    pub store_bytes: usize,
    pub next_session_id: u64,
}

/// A caller-held session handle over the engine's session state.
pub struct ClientSession {
    pub inner: LsmSession,
}

impl ClientSession {
    pub fn new(inner: LsmSession) -> (r: ClientSession)
        ensures
            r.inner == inner,
    {
        ClientSession { inner }
    }

    /// The session's generation.
    pub fn id(&self) -> (r: u64)
        ensures
            r == self.inner.id,
    {
        self.inner.id()
    }

    /// Starts a transaction; fails with a transaction conflict exactly
    /// when one is already active.
    pub fn start_transaction(&mut self, ty: TransactionType) -> (r: DbResult<()>)
        ensures
            old(self).inner.transaction is Some
                ==> r == Err::<(), DbErr>(DbErr::TransactionConflict)
                    && *final(self) == *old(self),
            old(self).inner.transaction is None ==> r == Ok::<(), DbErr>(())
                && final(self).inner.transaction == Some(ty)
                && final(self).inner.id == old(self).inner.id
                && final(self).inner.mem_table == old(self).inner.mem_table
                && final(self).inner.log_buffer == old(self).inner.log_buffer
                && final(self).inner.ops == old(self).inner.ops
                && final(self).inner.base == old(self).inner.base,
    {
        self.inner.start_transaction(ty)
    }

    /// Binds `key` to `value`, logging first.
    pub fn put(&mut self, key: &[u8], value: &[u8]) -> (r: DbResult<()>)
        requires
            old(self).inner.wf(),
            key@.len() <= i64::MAX,
            value@.len() <= i64::MAX,
            old(self).inner.mem_table.store_bytes + value@.len() <= usize::MAX,
        ensures
            r == Ok::<(), DbErr>(()),
            final(self).inner.wf(),
            final(self).inner.mem_table.as_map()
                == old(self).inner.mem_table.as_map().insert(key@, Some(value@)),
            final(self).inner.mem_table.store_bytes
                <= old(self).inner.mem_table.store_bytes + value@.len(),
            final(self).inner.id == old(self).inner.id,
            final(self).inner.transaction == old(self).inner.transaction,
            final(self).inner.logging() == old(self).inner.logging(),
            old(self).inner.logging() ==> {
                &&& final(self).inner.log_buffer->0@
                    == old(self).inner.log_buffer->0@ + rec_put(key@, value@)
                &&& final(self).inner.ops@
                    == old(self).inner.ops@.push(LogOp::Put { key: key@, value: value@ })
                &&& final(self).inner.base@ == old(self).inner.base@
            },
    {
        self.inner.put(key, value)
    }

    /// Deletes `key`, logging first.
    pub fn delete(&mut self, key: &[u8]) -> (r: DbResult<()>)
        requires
            old(self).inner.wf(),
            key@.len() <= i64::MAX,
        ensures
            r == Ok::<(), DbErr>(()),
            final(self).inner.wf(),
            final(self).inner.mem_table.as_map()
                == old(self).inner.mem_table.as_map().insert(key@, None),
            final(self).inner.mem_table.store_bytes <= old(self).inner.mem_table.store_bytes,
            final(self).inner.id == old(self).inner.id,
            final(self).inner.transaction == old(self).inner.transaction,
            final(self).inner.logging() == old(self).inner.logging(),
            old(self).inner.logging() ==> {
                &&& final(self).inner.log_buffer->0@
                    == old(self).inner.log_buffer->0@ + rec_delete(key@)
                &&& final(self).inner.ops@
                    == old(self).inner.ops@.push(LogOp::Delete { key: key@ })
                &&& final(self).inner.base@ == old(self).inner.base@
            },
    {
        self.inner.delete(key)
    }

    /// The framed log records pending since the last reset.
    pub fn log_buffer(&self) -> (r: Option<&[u8]>)
        ensures
            match r {
                Some(b) => self.inner.logging() && b@ == self.inner.log_buffer->0@,
                None => !self.inner.logging(),
            },
    {
        self.inner.log_buffer()
    }
}

/// The database: exclusive owner of the durable backend, the
/// collection registry and the session generation counter. Callers
/// that share it across threads wrap it in their own mutual-exclusion
/// primitive and take whole operations under the lock.
pub struct Database {
    pub backend: MemoryBackend,
    pub collections: Vec<String>,
    pub enable_log: bool,
    pub next_session_id: u64,
    pub store_bytes: usize,
}

impl Database {
    /// The backend levels are well formed, the byte counter is exactly
    /// their total of live value bytes, and collection names are
    /// non-empty and registered once.
    pub open spec fn wf(&self) -> bool {
        &&& self.backend.wf()
        &&& self.store_bytes == levels_bytes(self.backend.levels@)
        &&& forall|i: int, j: int|
            0 <= i < j < self.collections@.len()
                ==> (#[trigger] self.collections@[i])@ != (#[trigger] self.collections@[j])@
        &&& forall|i: int| 0 <= i < self.collections@.len()
            ==> (#[trigger] self.collections@[i])@.len() > 0
    }

    /// Whether a name is registered.
    pub open spec fn has_collection(&self, name: Seq<char>) -> bool {
        exists|i: int| 0 <= i < self.collections@.len() && (#[trigger] self.collections@[i])@ == name
    }

    /// Turns write-ahead logging for sessions started after this call
    /// on or off.
    pub fn set_log(&mut self, v: bool)
        ensures
            final(self).enable_log == v,
            final(self).backend == old(self).backend,
            final(self).collections == old(self).collections,
            final(self).next_session_id == old(self).next_session_id,
            final(self).store_bytes == old(self).store_bytes,
    {
        self.enable_log = v;
    }

    /// The version of this engine.
    pub fn get_version() -> (r: String)
        ensures
            r@ == "0.1.0"@,
    {
        "0.1.0".to_owned()
    }

    /// An empty in-memory database under the default configuration.
    pub fn open_memory() -> (r: DbResult<Database>)
        ensures
            r matches Ok(db) && db.wf() && db.collections@.len() == 0
                && db.enable_log == false && db.next_session_id == 0
                && db.store_bytes == 0 && db.backend.levels@.len() == 0
                && !db.backend.write_active,
    {
        Database::open_memory_with_config(Config::default())
    }

    /// An empty in-memory database.
    pub fn open_memory_with_config(config: Config) -> (r: DbResult<Database>)
        ensures
            r matches Ok(db) && db.wf() && db.collections@.len() == 0
                && db.enable_log == config.enable_log && db.next_session_id == 0
                && db.store_bytes == 0 && db.backend.levels@.len() == 0
                && !db.backend.write_active,
    {
        let db = Database {
            backend: MemoryBackend::new(),
            collections: Vec::new(),
            enable_log: config.enable_log,
            next_session_id: 0,
            store_bytes: 0,
        };
        Ok(db)
    }

    /// The observability counters.
    pub fn metrics(&self) -> (r: Metrics)
        ensures
            r.store_bytes == self.store_bytes,
            r.next_session_id == self.next_session_id,
    {
        Metrics { store_bytes: self.store_bytes, next_session_id: self.next_session_id }
    }

    /// Registers a collection name; registering an existing name is a
    /// no-op. Names are non-empty.
    pub fn create_collection(&mut self, name: &str) -> (r: DbResult<()>)
        requires
            old(self).wf(),
            name@.len() > 0,
        ensures
            r == Ok::<(), DbErr>(()),
            final(self).wf(),
            final(self).has_collection(name@),
            old(self).has_collection(name@) ==> final(self).collections == old(self).collections,
            !old(self).has_collection(name@) ==> {
                &&& final(self).collections@.len() == old(self).collections@.len() + 1
                &&& final(self).collections@[old(self).collections@.len() as int]@ == name@
                &&& forall|j: int| 0 <= j < old(self).collections@.len()
                    ==> final(self).collections@[j] == old(self).collections@[j]
            },
            final(self).backend == old(self).backend,
            final(self).enable_log == old(self).enable_log,
            final(self).next_session_id == old(self).next_session_id,
            final(self).store_bytes == old(self).store_bytes,
    {
        let owned: String = name.to_owned();
        let mut i: usize = 0;
        while i < self.collections.len()
            invariant
                0 <= i <= self.collections@.len(),
                owned@ == name@,
                *self == *old(self),
                old(self).wf(),
                name@.len() > 0,
                forall|j: int| 0 <= j < i ==> (#[trigger] self.collections@[j])@ != name@,
            decreases self.collections@.len() - i,
        {
            if self.collections[i] == owned {
                proof {
                    assert(self.collections@[i as int]@ == name@);
                }
                return Ok(());
            }
            i = i + 1;
        }
        self.collections.push(owned);
        proof {
            assert(final(self).collections@[old(self).collections@.len() as int]@ == name@);
        }
        Ok(())
    }

    /// Registers a collection name under a caller-held session. The
    /// registry itself is updated immediately; the session only scopes
    /// the caller's surrounding transaction and is left untouched.
    pub fn create_collection_with_session(&mut self, name: &str, session: &mut ClientSession)
        -> (r: DbResult<()>)
        requires
            old(self).wf(),
            name@.len() > 0,
        ensures
            r == Ok::<(), DbErr>(()),
            final(self).wf(),
            final(self).has_collection(name@),
            *final(session) == *old(session),
            old(self).has_collection(name@) ==> final(self).collections == old(self).collections,
            !old(self).has_collection(name@)
                ==> final(self).collections@.len() == old(self).collections@.len() + 1
                    && final(self).collections@[old(self).collections@.len() as int]@ == name@,
            final(self).backend == old(self).backend,
            final(self).store_bytes == old(self).store_bytes,
    {
        self.create_collection(name)
    }

    /// Hands out a fresh session over an empty MemTable, with logging
    /// as configured, under the next generation number.
    pub fn start_session(&mut self) -> (r: DbResult<ClientSession>)
        requires
            old(self).next_session_id < u64::MAX,
        ensures
            r matches Ok(cs) && {
                &&& cs.inner.wf()
                &&& cs.inner.id == old(self).next_session_id
                &&& cs.inner.transaction is None
                &&& cs.inner.logging() == old(self).enable_log
                &&& cs.inner.mem_table.as_map()
                    =~= Map::<Seq<u8>, Option<Seq<u8>>>::empty()
                &&& cs.inner.mem_table.store_bytes == 0
                &&& old(self).enable_log ==> cs.inner.log_buffer->0@ == Seq::<u8>::empty()
                    && cs.inner.ops@ == Seq::<LogOp>::empty()
            },
            final(self).next_session_id == old(self).next_session_id + 1,
            final(self).backend == old(self).backend,
            final(self).collections == old(self).collections,
            final(self).enable_log == old(self).enable_log,
            final(self).store_bytes == old(self).store_bytes,
    {
        let id = self.next_session_id;
        self.next_session_id = id + 1;
        let table = MemTable::new();
        let session = LsmSession::new(id, table, self.enable_log);
        Ok(ClientSession::new(session))
    }

    /// Commits a session's MemTable to the backend as its newest
    /// level, under the backend's exclusive write scope, and closes
    /// the session's transaction: its log buffer resets and its
    /// generation advances. Fails with a lock failure, changing
    /// nothing, exactly when a write scope is already live.
    pub fn commit_session(&mut self, session: &mut ClientSession) -> (r: DbResult<()>)
        requires
            old(self).wf(),
            old(session).inner.wf(),
            old(session).inner.id < u64::MAX,
            old(self).store_bytes + old(session).inner.mem_table.store_bytes <= usize::MAX,
        ensures
            final(self).wf(),
            old(self).backend.write_active ==> r == Err::<(), DbErr>(DbErr::LockFailure)
                && *final(self) == *old(self) && *final(session) == *old(session),
            !old(self).backend.write_active ==> {
                &&& r == Ok::<(), DbErr>(())
                &&& final(self).backend.levels@.len() == old(self).backend.levels@.len() + 1
                &&& final(self).backend.levels@.last()@ == old(session).inner.mem_table.root@
                &&& final(self).store_bytes
                    == old(self).store_bytes + old(session).inner.mem_table.store_bytes
                &&& final(session).inner.wf()
                &&& final(session).inner.id == old(session).inner.id + 1
                &&& final(session).inner.transaction is None
                &&& final(session).inner.mem_table == old(session).inner.mem_table
                &&& final(session).inner.logging() == old(session).inner.logging()
            },
            final(self).collections == old(self).collections,
            final(self).enable_log == old(self).enable_log,
            final(self).next_session_id == old(self).next_session_id,
    {
        let tx = match self.backend.begin_write() {
            Ok(tx) => tx,
            Err(e) => {
                return Err(e);
            },
        };
        let root = session.inner.mem_table.root();
        self.backend.commit(tx, root);
        self.store_bytes = self.store_bytes + session.inner.mem_table.store_bytes();
        session.inner.finished_transaction();
        Ok(())
    }

    /// The registered collection names.
    pub fn list_collection_names(&self) -> (r: DbResult<Vec<String>>)
        ensures
            r matches Ok(v) && v@.len() == self.collections@.len()
                && forall|i: int| 0 <= i < v@.len()
                    ==> (#[trigger] v@[i])@ == self.collections@[i]@,
    {
        let mut out: Vec<String> = Vec::new();
        let mut i: usize = 0;
        while i < self.collections.len()
            invariant
                0 <= i <= self.collections@.len(),
                out@.len() == i,
                forall|j: int| 0 <= j < i ==> (#[trigger] out@[j])@ == self.collections@[j]@,
            decreases self.collections@.len() - i,
        {
            out.push(self.collections[i].clone());
            i = i + 1;
        }
        Ok(out)
    }

    /// The registered collection names; the session only scopes the
    /// caller's surrounding transaction and is left untouched.
    pub fn list_collection_names_with_session(&self, session: &mut ClientSession)
        -> (r: DbResult<Vec<String>>)
        ensures
            r matches Ok(v) && v@.len() == self.collections@.len()
                && forall|i: int| 0 <= i < v@.len()
                    ==> (#[trigger] v@[i])@ == self.collections@[i]@,
            *final(session) == *old(session),
    {
        self.list_collection_names()
    }
}

} // verus!
