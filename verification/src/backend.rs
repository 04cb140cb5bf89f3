//! The durable tier behind the engine. The `Backend` trait abstracts a
//! store that opens by path and yields read and write transactions;
//! the in-memory implementation keeps committed MemTable roots as a
//! stack of immutable levels and serializes writers by rejecting a
//! second uncommitted write scope.

use vstd::prelude::*;
use crate::{DbErr, DbResult};
use crate::mem_table::{Root, live_bytes};

verus! {

/// A durable store: opens by path and yields transaction scopes. An
/// implementation must never let two uncommitted write transactions
/// interleave mutations. Each implementation gives the abstract
/// predicates below their meaning, and every implementation is held
/// to the method contracts stated over them.
pub trait Backend where Self: Sized {
    type ReadTransaction;

    type WriteTransaction;

    /// Whether an uncommitted write scope is live on this store.
    spec fn write_locked(&self) -> bool;

    /// Whether the store can serve a read transaction in its current
    /// state.
    spec fn reads_available(&self) -> bool;

    /// What a read transaction begun on this store observes of it.
    spec fn read_snapshot(&self, tx: &Self::ReadTransaction) -> bool;

    /// Whether this implementation opens or creates a store at `path`.
    spec fn openable(path: &str) -> bool;

    /// The state a freshly opened store of this implementation is in.
    spec fn opened_store(store: &Self) -> bool;

    /// A read-only view isolated from concurrent writers: it succeeds
    /// whenever reads are available, and what it yields observes a
    /// snapshot of the store at begin time.
    fn transaction(&self) -> (r: DbResult<Self::ReadTransaction>)
        ensures
            self.reads_available() ==> r is Ok,
            r matches Ok(tx) ==> self.read_snapshot(&tx),
    ;

    /// The exclusive write scope. While one is live, a second begin
    /// fails: no two uncommitted write transactions ever interleave.
    /// While none is live, the begin succeeds and takes the lock.
    fn write_transaction(&mut self) -> (r: DbResult<Self::WriteTransaction>)
        ensures
            old(self).write_locked() ==> r is Err,
            !old(self).write_locked() ==> r is Ok && final(self).write_locked(),
    ;

    /// Opens or creates durable storage at `path`: it succeeds on any
    /// path this implementation can open, yielding a store in the
    /// implementation's freshly opened state.
    fn open_path(path: &str) -> (r: DbResult<Self>)
        ensures
            Self::openable(path) ==> r is Ok,
            r matches Ok(b) ==> Self::opened_store(&b),
    ;
}

/// Total live bytes across a stack of levels.
pub open spec fn levels_bytes(ls: Seq<Root>) -> nat
    decreases ls.len(),
{
    if ls.len() == 0 {
        0
    } else {
        levels_bytes(ls.drop_last()) + live_bytes(ls.last()@)
    }
}

/// A read transaction of the in-memory backend: a snapshot of the
/// levels at begin time, untouched by later commits.
pub struct MemReadTransaction {
    pub levels: Vec<Root>,
}

/// A write transaction of the in-memory backend: a token for the one
/// live write scope.
pub struct MemWriteTransaction {}

/// The in-memory durable tier: committed roots, newest last, and the
/// single-writer flag.
pub struct MemoryBackend {
    pub levels: Vec<Root>,
    pub write_active: bool,
}

impl MemoryBackend {
    /// Every level is a well-formed sorted root.
    pub open spec fn wf(&self) -> bool {
        forall|i: int| 0 <= i < self.levels@.len() ==> (#[trigger] self.levels@[i]).wf()
    }

    /// An empty store: no levels, no writer.
    pub fn new() -> (r: MemoryBackend)
        ensures
            r.wf(),
            r.levels@.len() == 0,
            !r.write_active,
    {
        MemoryBackend { levels: Vec::new(), write_active: false }
    }

    /// A snapshot of the current levels, for merged reads.
    pub fn snapshot_levels(&self) -> (r: Vec<Root>)
        ensures
            r@.len() == self.levels@.len(),
            forall|i: int| 0 <= i < r@.len() ==> (#[trigger] r@[i])@ == self.levels@[i]@,
    {
        let mut out: Vec<Root> = Vec::new();
        let mut i: usize = 0;
        while i < self.levels.len()
            invariant
                0 <= i <= self.levels@.len(),
                out@.len() == i,
                forall|j: int| 0 <= j < i ==> (#[trigger] out@[j])@ == self.levels@[j]@,
            decreases self.levels@.len() - i,
        {
            out.push(self.levels[i].snapshot());
            i = i + 1;
        }
        out
    }

    /// Begins a read transaction: an isolated snapshot of the levels.
    pub fn begin_read(&self) -> (r: MemReadTransaction)
        ensures
            r.levels@.len() == self.levels@.len(),
            forall|i: int| 0 <= i < r.levels@.len()
                ==> (#[trigger] r.levels@[i])@ == self.levels@[i]@,
    {
        MemReadTransaction { levels: self.snapshot_levels() }
    }

    /// Begins the write scope. Fails with a lock failure, leaving the
    /// store untouched, exactly when a write scope is already live.
    pub fn begin_write(&mut self) -> (r: DbResult<MemWriteTransaction>)
        ensures
            old(self).write_active ==> r is Err && r->Err_0 == DbErr::LockFailure
                && *final(self) == *old(self),
            !old(self).write_active ==> r is Ok && final(self).write_active
                && final(self).levels == old(self).levels,
    {
        if self.write_active {
            return Err(DbErr::LockFailure);
        }
        self.write_active = true;
        Ok(MemWriteTransaction {})
    }

    /// Commits a MemTable root as the newest level and releases the
    /// write scope.
    pub fn commit(&mut self, _tx: MemWriteTransaction, root: Root)
        requires
            old(self).write_active,
            root.wf(),
        ensures
            final(self).levels@ == old(self).levels@.push(root),
            !final(self).write_active,
            old(self).wf() ==> final(self).wf(),
            levels_bytes(final(self).levels@)
                == levels_bytes(old(self).levels@) + live_bytes(root@),
    {
        let ghost ls0 = self.levels@;
        self.levels.push(root);
        self.write_active = false;
        proof {
            assert(self.levels@.drop_last() =~= ls0);
            assert(self.levels@.last() == root);
        }
    }
}

impl Backend for MemoryBackend {
    type ReadTransaction = MemReadTransaction;

    type WriteTransaction = MemWriteTransaction;

    /// The single-writer flag is the lock.
    open spec fn write_locked(&self) -> bool {
        self.write_active
    }

    /// The in-memory tier always serves snapshot reads.
    open spec fn reads_available(&self) -> bool {
        true
    }

    /// A read transaction holds a level-for-level copy of the store.
    open spec fn read_snapshot(&self, tx: &MemReadTransaction) -> bool {
        &&& tx.levels@.len() == self.levels@.len()
        &&& forall|i: int| 0 <= i < tx.levels@.len()
            ==> (#[trigger] tx.levels@[i])@ == self.levels@[i]@
    }

    /// The in-memory tier opens at every path.
    open spec fn openable(path: &str) -> bool {
        true
    }

    /// A freshly opened in-memory store is empty and unlocked.
    open spec fn opened_store(store: &MemoryBackend) -> bool {
        &&& store.levels@.len() == 0
        &&& !store.write_active
    }

    fn transaction(&self) -> DbResult<MemReadTransaction> {
        Ok(self.begin_read())
    }

    fn write_transaction(&mut self) -> DbResult<MemWriteTransaction> {
        self.begin_write()
    }

    fn open_path(_path: &str) -> DbResult<MemoryBackend> {
        Ok(MemoryBackend::new())
    }
}

} // verus!
