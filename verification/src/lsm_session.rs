//! A per-logical-connection unit of work. A session owns a MemTable,
//! an optional write-ahead log buffer, and the current transaction
//! mode. Every mutation is framed into the log buffer before it is
//! applied to the MemTable, so replaying the buffer in order against
//! the state at the last transaction boundary reproduces the table's
//! contents exactly.

use vstd::prelude::*;
use crate::{DbErr, DbResult, TransactionType};
use crate::mem_table::MemTable;
use crate::multi_cursor::MultiCursor;
use crate::wal::{
    LogOp, ops_wf, ops_bytes, apply_ops, rec_put, rec_delete, parse_log, put_log,
    delete_log, lemma_parse_ops,
};

verus! {

/// A session: generation counter, exclusively owned MemTable, optional
/// write-ahead log buffer, and current transaction mode.
pub struct LsmSession {
    pub id: u64,
    pub mem_table: MemTable,
    pub log_buffer: Option<Vec<u8>>,
    pub transaction: Option<TransactionType>,
    /// The operations framed into the log buffer since the last reset.
    pub ops: Ghost<Seq<LogOp>>,
    /// The MemTable contents at the last log reset.
    pub base: Ghost<Map<Seq<u8>, Option<Seq<u8>>>>,
}

impl LsmSession {
    /// The MemTable is well formed, and when logging is enabled the
    /// log buffer holds exactly the framed records of `ops`, whose
    /// replay over `base` gives the current MemTable contents.
    pub open spec fn wf(&self) -> bool {
        &&& self.mem_table.wf()
        &&& match self.log_buffer {
            Some(buf) => {
                &&& ops_wf(self.ops@)
                &&& buf@ == ops_bytes(self.ops@)
                &&& apply_ops(self.ops@, self.base@) == self.mem_table.as_map()
            },
            None => true,
        }
    }

    /// Whether this session frames its mutations into a log buffer.
    pub open spec fn logging(&self) -> bool {
        self.log_buffer is Some
    }

    /// The session's generation. It grows by one each time the session
    /// completes a transaction, invalidating stale references to the
    /// prior generation.
    pub fn id(&self) -> (r: u64)
        ensures
            r == self.id,
    {
        self.id
    }

    /// A fresh session over `mem_table`, with an empty log buffer when
    /// `has_log` is set and no active transaction.
    pub fn new(id: u64, mem_table: MemTable, has_log: bool) -> (r: LsmSession)
        requires
            mem_table.wf(),
        ensures
            r.wf(),
            r.id == id,
            r.mem_table == mem_table,
            r.transaction is None,
            r.logging() == has_log,
            has_log ==> r.log_buffer->0@ == Seq::<u8>::empty() && r.ops@ == Seq::<LogOp>::empty()
                && r.base@ == mem_table.as_map(),
    {
        let log_buffer: Option<Vec<u8>> = if has_log {
            Some(Vec::new())
        } else {
            None
        };
        let ghost base0 = mem_table.as_map();
        let r = LsmSession {
            id,
            mem_table,
            log_buffer,
            transaction: None,
            ops: Ghost(Seq::empty()),
            base: Ghost(base0),
        };
        proof {
            if has_log {
                assert(ops_bytes(r.ops@) =~= Seq::<u8>::empty());
            }
        }
        r
    }

    /// The framed log records pending since the last reset, when
    /// logging is enabled.
    pub fn log_buffer(&self) -> (r: Option<&[u8]>)
        ensures
            match r {
                Some(b) => self.logging() && b@ == self.log_buffer->0@,
                None => !self.logging(),
            },
    {
        match &self.log_buffer {
            Some(buf) => Some(buf.as_slice()),
            None => None,
        }
    }

    /// The transaction this session currently runs, if any.
    pub fn transaction(&self) -> (r: Option<TransactionType>)
        ensures
            r == self.transaction,
    {
        self.transaction
    }

    /// Starts a transaction of kind `ty`. Fails with a transaction
    /// conflict, leaving the session untouched, exactly when one is
    /// already active.
    pub fn start_transaction(&mut self, ty: TransactionType) -> (r: DbResult<()>)
        ensures
            old(self).transaction is Some ==> r == Err::<(), DbErr>(DbErr::TransactionConflict)
                && *final(self) == *old(self),
            old(self).transaction is None ==> {
                &&& r == Ok::<(), DbErr>(())
                &&& final(self).transaction == Some(ty)
                &&& final(self).id == old(self).id
                &&& final(self).mem_table == old(self).mem_table
                &&& final(self).log_buffer == old(self).log_buffer
                &&& final(self).ops == old(self).ops
                &&& final(self).base == old(self).base
            },
    {
        if self.transaction.is_some() {
            return Err(DbErr::TransactionConflict);
        }
        self.transaction = Some(ty);
        Ok(())
    }

    /// Binds `key` to `value`: frames a write record into the log
    /// buffer first (when logging is enabled), then applies the write
    /// to the MemTable.
    pub fn put(&mut self, key: &[u8], value: &[u8]) -> (r: DbResult<()>)
        requires
            old(self).wf(),
            key@.len() <= i64::MAX,
            value@.len() <= i64::MAX,
            old(self).mem_table.store_bytes + value@.len() <= usize::MAX,
        ensures
            r == Ok::<(), DbErr>(()),
            final(self).wf(),
            final(self).mem_table.as_map() == old(self).mem_table.as_map().insert(
                key@, Some(value@)),
            final(self).mem_table.store_bytes
                <= old(self).mem_table.store_bytes + value@.len(),
            final(self).id == old(self).id,
            final(self).transaction == old(self).transaction,
            final(self).logging() == old(self).logging(),
            old(self).logging() ==> {
                &&& final(self).log_buffer->0@ == old(self).log_buffer->0@ + rec_put(key@, value@)
                &&& final(self).ops@ == old(self).ops@.push(
                    LogOp::Put { key: key@, value: value@ })
                &&& final(self).base@ == old(self).base@
            },
    {
        match &mut self.log_buffer {
            Some(buf) => {
                put_log(buf, key, value);
            },
            None => {},
        }
        self.mem_table.put(key, value, false);
        proof {
            let op = LogOp::Put { key: key@, value: value@ };
            let ops2 = self.ops@.push(op);
            assert(ops2.drop_last() =~= self.ops@);
            assert(ops2.last() == op);
        }
        let ghost op = LogOp::Put { key: key@, value: value@ };
        self.ops = Ghost(self.ops@.push(op));
        Ok(())
    }

    /// Deletes `key`: frames a delete record into the log buffer first
    /// (when logging is enabled), then marks the key with a tombstone
    /// in the MemTable.
    pub fn delete(&mut self, key: &[u8]) -> (r: DbResult<()>)
        requires
            old(self).wf(),
            key@.len() <= i64::MAX,
        ensures
            r == Ok::<(), DbErr>(()),
            final(self).wf(),
            final(self).mem_table.as_map() == old(self).mem_table.as_map().insert(key@, None),
            final(self).mem_table.store_bytes <= old(self).mem_table.store_bytes,
            final(self).id == old(self).id,
            final(self).transaction == old(self).transaction,
            final(self).logging() == old(self).logging(),
            old(self).logging() ==> {
                &&& final(self).log_buffer->0@ == old(self).log_buffer->0@ + rec_delete(key@)
                &&& final(self).ops@ == old(self).ops@.push(LogOp::Delete { key: key@ })
                &&& final(self).base@ == old(self).base@
            },
    {
        match &mut self.log_buffer {
            Some(buf) => {
                delete_log(buf, key);
            },
            None => {},
        }
        self.mem_table.delete(key, false);
        proof {
            let op = LogOp::Delete { key: key@ };
            let ops2 = self.ops@.push(op);
            assert(ops2.drop_last() =~= self.ops@);
            assert(ops2.last() == op);
        }
        let ghost op = LogOp::Delete { key: key@ };
        self.ops = Ghost(self.ops@.push(op));
        Ok(())
    }

    /// Rewrites the value under the cursor's current key: logs the
    /// equivalent write record, installs the cursor's copy-on-write
    /// root, and moves the byte accounting by the replaced and the new
    /// value's lengths. Returns whether an existing MemTable value was
    /// replaced rather than freshly inserted; a no-op returning false
    /// when the cursor is exhausted.
    pub fn update_cursor_current(&mut self, cursor: &mut MultiCursor, value: &[u8])
        -> (r: DbResult<bool>)
        requires
            old(self).wf(),
            old(cursor).wf(),
            old(cursor).mem@ == old(self).mem_table.root@,
            value@.len() <= i64::MAX,
            old(cursor).pos < old(cursor).merged_view().len()
                ==> old(cursor).merged_view()[old(cursor).pos as int].0.len() <= i64::MAX,
            old(self).mem_table.store_bytes + value@.len() <= usize::MAX,
        ensures
            final(self).wf(),
            final(cursor).wf(),
            final(self).id == old(self).id,
            final(self).transaction == old(self).transaction,
            final(self).logging() == old(self).logging(),
            old(cursor).pos >= old(cursor).merged_view().len() ==> {
                &&& r == Ok::<bool, DbErr>(false)
                &&& *final(self) == *old(self)
                &&& *final(cursor) == *old(cursor)
            },
            old(cursor).pos < old(cursor).merged_view().len() ==> {
                let k = old(cursor).merged_view()[old(cursor).pos as int].0;
                &&& r == Ok::<bool, DbErr>(old(self).mem_table.as_map().contains_key(k)
                    && old(self).mem_table.as_map()[k] is Some)
                &&& final(self).mem_table.as_map()
                    == old(self).mem_table.as_map().insert(k, Some(value@))
                &&& final(self).mem_table.store_bytes
                    <= old(self).mem_table.store_bytes + value@.len()
                &&& final(cursor).mem@ == final(self).mem_table.root@
                &&& final(cursor).merged_view()
                    == old(cursor).merged_view().update(old(cursor).pos as int, (k, value@))
                &&& final(cursor).pos == old(cursor).pos
                &&& old(self).logging() ==> {
                    &&& final(self).log_buffer->0@
                        == old(self).log_buffer->0@ + rec_put(k, value@)
                    &&& final(self).ops@
                        == old(self).ops@.push(LogOp::Put { key: k, value: value@ })
                    &&& final(self).base@ == old(self).base@
                }
            },
    {
        let key = cursor.key();
        if key.is_none() {
            return Ok(false);
        }
        let mut result = false;
        let key = key.unwrap();

        match &mut self.log_buffer {
            Some(buf) => {
                put_log(buf, key.as_slice(), value);
            },
            None => {},
        }

        let new_tree_opt = cursor.update_current(value);
        match new_tree_opt {
            Some((new_tree, legacy_value_opt)) => {
                let ghost k = old(cursor).merged_view()[old(cursor).pos as int].0;
                self.mem_table.update_root(new_tree);

                match &legacy_value_opt {
                    Some(legacy_value) => {
                        let n = legacy_value.len();
                        let sb = self.mem_table.store_bytes_mut();
                        *sb = *sb - n;
                        result = true;
                    },
                    None => {},
                }

                let n = value.len();
                let sb = self.mem_table.store_bytes_mut();
                *sb = *sb + n;

                proof {
                    let op = LogOp::Put { key: k, value: value@ };
                    let ops2 = self.ops@.push(op);
                    assert(ops2.drop_last() =~= self.ops@);
                    assert(ops2.last() == op);
                }
                let ghost op = LogOp::Put { key: k, value: value@ };
                self.ops = Ghost(self.ops@.push(op));
            },
            None => {
                proof {
                    assert(false);
                }
            },
        }

        Ok(result)
    }

    /// Deletes the cursor's current key: logs the equivalent delete
    /// record, installs the tombstone root, and subtracts only the
    /// replaced value's length — the key and the tombstone keep their
    /// space until compaction. Returns whether a live MemTable value
    /// was removed; a no-op returning false when the cursor is
    /// exhausted.
    pub fn delete_cursor_current(&mut self, cursor: &mut MultiCursor) -> (r: DbResult<bool>)
        requires
            old(self).wf(),
            old(cursor).wf(),
            old(cursor).mem@ == old(self).mem_table.root@,
            old(cursor).pos < old(cursor).merged_view().len()
                ==> old(cursor).merged_view()[old(cursor).pos as int].0.len() <= i64::MAX,
        ensures
            final(self).wf(),
            final(cursor).wf(),
            final(self).id == old(self).id,
            final(self).transaction == old(self).transaction,
            final(self).logging() == old(self).logging(),
            old(cursor).pos >= old(cursor).merged_view().len() ==> {
                &&& r == Ok::<bool, DbErr>(false)
                &&& *final(self) == *old(self)
                &&& *final(cursor) == *old(cursor)
            },
            old(cursor).pos < old(cursor).merged_view().len() ==> {
                let k = old(cursor).merged_view()[old(cursor).pos as int].0;
                &&& r == Ok::<bool, DbErr>(old(self).mem_table.as_map().contains_key(k)
                    && old(self).mem_table.as_map()[k] is Some)
                &&& final(self).mem_table.as_map()
                    == old(self).mem_table.as_map().insert(k, None)
                &&& final(self).mem_table.store_bytes <= old(self).mem_table.store_bytes
                &&& final(cursor).mem@ == final(self).mem_table.root@
                &&& final(cursor).merged_view()
                    == old(cursor).merged_view().remove(old(cursor).pos as int)
                &&& final(cursor).pos == old(cursor).pos
                &&& old(self).logging() ==> {
                    &&& final(self).log_buffer->0@ == old(self).log_buffer->0@ + rec_delete(k)
                    &&& final(self).ops@ == old(self).ops@.push(LogOp::Delete { key: k })
                    &&& final(self).base@ == old(self).base@
                }
            },
    {
        let key = cursor.key();
        if key.is_none() {
            return Ok(false);
        }
        let mut result = false;
        let key = key.unwrap();

        match &mut self.log_buffer {
            Some(buf) => {
                delete_log(buf, key.as_slice());
            },
            None => {},
        }

        let new_tree_opt = cursor.delete_current();
        match new_tree_opt {
            Some((new_tree, legacy_value_opt)) => {
                let ghost k = old(cursor).merged_view()[old(cursor).pos as int].0;
                self.mem_table.update_root(new_tree);

                match &legacy_value_opt {
                    Some(legacy_value) => {
                        // The key and the tombstone still need space:
                        // only the value's length leaves the total.
                        let n = legacy_value.len();
                        let sb = self.mem_table.store_bytes_mut();
                        *sb = *sb - n;
                        result = true;
                    },
                    None => {},
                }

                proof {
                    let op = LogOp::Delete { key: k };
                    let ops2 = self.ops@.push(op);
                    assert(ops2.drop_last() =~= self.ops@);
                    assert(ops2.last() == op);
                }
                let ghost op = LogOp::Delete { key: k };
                self.ops = Ghost(self.ops@.push(op));
            },
            None => {
                proof {
                    assert(false);
                }
            },
        }

        Ok(result)
    }

    /// Closes the current transaction: clears the transaction mode,
    /// resets the log buffer to empty — consuming or discarding the
    /// records beforehand is the caller's choice — and moves the
    /// session to its next generation.
    pub fn finished_transaction(&mut self)
        requires
            old(self).wf(),
            old(self).id < u64::MAX,
        ensures
            final(self).wf(),
            final(self).id == old(self).id + 1,
            final(self).transaction is None,
            final(self).mem_table == old(self).mem_table,
            final(self).logging() == old(self).logging(),
            final(self).logging() ==> final(self).log_buffer->0@ == Seq::<u8>::empty()
                && final(self).ops@ == Seq::<LogOp>::empty()
                && final(self).base@ == old(self).mem_table.as_map(),
    {
        if self.log_buffer.is_some() {
            self.log_buffer = Some(Vec::new());
        }
        self.transaction = None;
        self.id = self.id + 1;
        self.ops = Ghost(Seq::empty());
        self.base = Ghost(self.mem_table.as_map());
        proof {
            assert(ops_bytes(self.ops@) =~= Seq::<u8>::empty());
        }
    }
}

/// Log-replay equivalence: for any well-formed session with logging
/// enabled — whatever interleaving of put, delete and cursor mutations
/// it has run — its log buffer parses back to exactly the operations
/// performed since the last reset, and replaying them in order over
/// the contents at that reset (empty, for a session begun on an empty
/// MemTable) reproduces the session's exact current contents.
pub proof fn lemma_log_replay(s: LsmSession)
    requires
        s.wf(),
        s.logging(),
    ensures
        parse_log(s.log_buffer->0@) == Some(s.ops@),
        apply_ops(s.ops@, s.base@) == s.mem_table.as_map(),
{
    lemma_parse_ops(s.ops@);
}

} // verus!
