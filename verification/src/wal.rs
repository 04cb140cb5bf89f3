//! Framing of the session write-ahead log. Each mutation becomes one
//! record in the session's log buffer before it touches the MemTable:
//! a tag byte, the vli-encoded key length and the key bytes, and — for
//! a write — the vli-encoded value length and the value bytes.
//! Replaying a buffer of records in order reproduces the mutations.

use vstd::prelude::*;
use crate::DbErr;
use crate::vli;
use crate::vli::{vli_seq, vli_parse_i64, lemma_vli_round_trip};
use crate::mem_table::MemTable;

verus! {

/// Tag byte of a record that binds a key to a value.
pub const WRITE: u8 = 1;

/// Tag byte of a record that deletes a key.
pub const DELETE: u8 = 2;

/// One logged mutation.
pub enum LogOp {
    Put { key: Seq<u8>, value: Seq<u8> },
    Delete { key: Seq<u8> },
}

/// The key and value lengths of an operation fit the signed 64-bit
/// range their encodings use.
pub open spec fn op_wf(op: LogOp) -> bool {
    match op {
        LogOp::Put { key, value } => key.len() <= i64::MAX && value.len() <= i64::MAX,
        LogOp::Delete { key } => key.len() <= i64::MAX,
    }
}

pub open spec fn ops_wf(ops: Seq<LogOp>) -> bool {
    forall|i: int| 0 <= i < ops.len() ==> op_wf(#[trigger] ops[i])
}

/// The record bytes of a write.
pub open spec fn rec_put(key: Seq<u8>, value: Seq<u8>) -> Seq<u8> {
    seq![WRITE] + vli_seq(key.len() as int) + key + vli_seq(value.len() as int) + value
}

/// The record bytes of a delete.
pub open spec fn rec_delete(key: Seq<u8>) -> Seq<u8> {
    seq![DELETE] + vli_seq(key.len() as int) + key
}

/// The record bytes of one operation.
pub open spec fn op_bytes(op: LogOp) -> Seq<u8> {
    match op {
        LogOp::Put { key, value } => rec_put(key, value),
        LogOp::Delete { key } => rec_delete(key),
    }
}

/// The log buffer a sequence of operations writes.
pub open spec fn ops_bytes(ops: Seq<LogOp>) -> Seq<u8>
    decreases ops.len(),
{
    if ops.len() == 0 {
        Seq::empty()
    } else {
        ops_bytes(ops.drop_last()) + op_bytes(ops.last())
    }
}

/// The effect of one operation on a key/slot map: a write binds the
/// key, a delete binds it to a tombstone.
pub open spec fn apply_op(
    m: Map<Seq<u8>, Option<Seq<u8>>>,
    op: LogOp,
) -> Map<Seq<u8>, Option<Seq<u8>>> {
    match op {
        LogOp::Put { key, value } => m.insert(key, Some(value)),
        LogOp::Delete { key } => m.insert(key, None),
    }
}

/// The effect of replaying a sequence of operations in order.
pub open spec fn apply_ops(
    ops: Seq<LogOp>,
    m: Map<Seq<u8>, Option<Seq<u8>>>,
) -> Map<Seq<u8>, Option<Seq<u8>>>
    decreases ops.len(),
{
    if ops.len() == 0 {
        m
    } else {
        apply_op(apply_ops(ops.drop_last(), m), ops.last())
    }
}

/// Reads one record from the front of `s`: the operation and the count
/// of bytes consumed, or nothing when the front is not a record.
pub open spec fn parse_record(s: Seq<u8>) -> Option<(LogOp, int)> {
    if s.len() == 0 {
        None
    } else if s[0] == WRITE {
        match vli_parse_i64(s.skip(1)) {
            None => None,
            Some((klen, n1)) => if klen < 0 || 1 + n1 + klen > s.len() {
                None
            } else {
                let key = s.subrange(1 + n1, 1 + n1 + klen);
                match vli_parse_i64(s.skip(1 + n1 + klen)) {
                    None => None,
                    Some((vlen, n2)) => if vlen < 0 || 1 + n1 + klen + n2 + vlen > s.len() {
                        None
                    } else {
                        let value = s.subrange(1 + n1 + klen + n2, 1 + n1 + klen + n2 + vlen);
                        Some((LogOp::Put { key, value }, 1 + n1 + klen + n2 + vlen))
                    },
                }
            },
        }
    } else if s[0] == DELETE {
        match vli_parse_i64(s.skip(1)) {
            None => None,
            Some((klen, n1)) => if klen < 0 || 1 + n1 + klen > s.len() {
                None
            } else {
                Some((LogOp::Delete { key: s.subrange(1 + n1, 1 + n1 + klen) }, 1 + n1 + klen))
            },
        }
    } else {
        None
    }
}

/// Reads a whole buffer as a sequence of records.
pub open spec fn parse_log(s: Seq<u8>) -> Option<Seq<LogOp>>
    decreases s.len(),
{
    if s.len() == 0 {
        Some(Seq::empty())
    } else {
        match parse_record(s) {
            None => None,
            Some((op, n)) => if 1 <= n <= s.len() {
                match parse_log(s.skip(n)) {
                    None => None,
                    Some(ops) => Some(seq![op] + ops),
                }
            } else {
                None
            },
        }
    }
}

/// A write record at the front of any stream parses back to the write
/// that was framed, consuming exactly the record.
pub proof fn lemma_parse_record_put(key: Seq<u8>, value: Seq<u8>, rest: Seq<u8>)
    requires
        key.len() <= i64::MAX,
        value.len() <= i64::MAX,
    ensures
        parse_record(rec_put(key, value) + rest)
            == Some((LogOp::Put { key, value }, rec_put(key, value).len() as int)),
{
    let e1 = vli_seq(key.len() as int);
    let e2 = vli_seq(value.len() as int);
    let s = rec_put(key, value) + rest;
    assert(s[0] == WRITE);
    let n1 = e1.len() as int;
    let n2 = e2.len() as int;
    assert(s.skip(1) =~= e1 + (key + e2 + value + rest));
    lemma_vli_round_trip(key.len() as int, key + e2 + value + rest);
    assert(vli_parse_i64(s.skip(1)) == Some((key.len() as int, n1)));
    let klen = key.len() as int;
    assert(1 + n1 + klen <= s.len());
    assert(s.subrange(1 + n1, 1 + n1 + klen) =~= key);
    assert(s.skip(1 + n1 + klen) =~= e2 + (value + rest));
    lemma_vli_round_trip(value.len() as int, value + rest);
    assert(vli_parse_i64(s.skip(1 + n1 + klen)) == Some((value.len() as int, n2)));
    let vlen = value.len() as int;
    assert(1 + n1 + klen + n2 + vlen <= s.len());
    assert(s.subrange(1 + n1 + klen + n2, 1 + n1 + klen + n2 + vlen) =~= value);
    assert(rec_put(key, value).len() == 1 + n1 + klen + n2 + vlen);
}

/// A delete record at the front of any stream parses back to the
/// delete that was framed, consuming exactly the record.
pub proof fn lemma_parse_record_delete(key: Seq<u8>, rest: Seq<u8>)
    requires
        key.len() <= i64::MAX,
    ensures
        parse_record(rec_delete(key) + rest)
            == Some((LogOp::Delete { key }, rec_delete(key).len() as int)),
{
    let e1 = vli_seq(key.len() as int);
    let s = rec_delete(key) + rest;
    assert(s[0] == DELETE);
    let n1 = e1.len() as int;
    assert(s.skip(1) =~= e1 + (key + rest));
    lemma_vli_round_trip(key.len() as int, key + rest);
    assert(vli_parse_i64(s.skip(1)) == Some((key.len() as int, n1)));
    let klen = key.len() as int;
    assert(1 + n1 + klen <= s.len());
    assert(s.subrange(1 + n1, 1 + n1 + klen) =~= key);
    assert(rec_delete(key).len() == 1 + n1 + klen);
}

/// A buffer split decomposes at its first operation.
pub proof fn lemma_ops_bytes_first(ops: Seq<LogOp>)
    requires
        ops.len() > 0,
    ensures
        ops_bytes(ops) == op_bytes(ops[0]) + ops_bytes(ops.skip(1)),
    decreases ops.len(),
{
    if ops.len() == 1 {
        assert(ops.drop_last() =~= Seq::empty());
        assert(ops.skip(1) =~= Seq::<LogOp>::empty());
        assert(ops_bytes(ops) =~= op_bytes(ops[0]) + ops_bytes(ops.skip(1)));
    } else {
        let dl = ops.drop_last();
        lemma_ops_bytes_first(dl);
        assert(dl[0] == ops[0]);
        assert(ops.skip(1).drop_last() =~= dl.skip(1));
        assert(ops.skip(1).last() == ops.last());
        assert(ops_bytes(ops.skip(1)) == ops_bytes(dl.skip(1)) + op_bytes(ops.last()));
        assert(ops_bytes(ops) =~= op_bytes(ops[0]) + ops_bytes(ops.skip(1)));
    }
}

/// Replay decomposes at the first operation.
pub proof fn lemma_apply_ops_first(ops: Seq<LogOp>, m: Map<Seq<u8>, Option<Seq<u8>>>)
    requires
        ops.len() > 0,
    ensures
        apply_ops(ops, m) == apply_ops(ops.skip(1), apply_op(m, ops[0])),
    decreases ops.len(),
{
    let m1 = apply_op(m, ops[0]);
    if ops.len() == 1 {
        assert(ops.drop_last() =~= Seq::<LogOp>::empty());
        assert(ops.skip(1) =~= Seq::<LogOp>::empty());
        assert(apply_ops(ops.drop_last(), m) == m);
        assert(ops.last() == ops[0]);
        assert(apply_ops(ops, m) == apply_op(m, ops[0]));
        assert(apply_ops(ops.skip(1), m1) == m1);
    } else {
        let dl = ops.drop_last();
        lemma_apply_ops_first(dl, m);
        assert(dl[0] == ops[0]);
        assert(apply_ops(dl, m) == apply_ops(dl.skip(1), m1));
        let t = ops.skip(1);
        assert(t.len() > 0);
        assert(t.drop_last() =~= dl.skip(1));
        assert(t.last() == ops.last());
        assert(apply_ops(t, m1) == apply_op(apply_ops(t.drop_last(), m1), t.last()));
        assert(apply_ops(t.drop_last(), m1) == apply_ops(dl.skip(1), m1));
        assert(apply_ops(ops, m) == apply_op(apply_ops(dl, m), ops.last()));
    }
}

/// The buffer a sequence of operations writes parses back to exactly
/// that sequence.
pub proof fn lemma_parse_ops(ops: Seq<LogOp>)
    requires
        ops_wf(ops),
    ensures
        parse_log(ops_bytes(ops)) == Some(ops),
    decreases ops.len(),
{
    if ops.len() == 0 {
        assert(ops_bytes(ops).len() == 0);
        assert(parse_log(ops_bytes(ops)) == Some(Seq::<LogOp>::empty()));
        assert(ops =~= Seq::<LogOp>::empty());
    } else {
        let s = ops_bytes(ops);
        let rest = ops_bytes(ops.skip(1));
        lemma_ops_bytes_first(ops);
        assert(op_wf(ops[0]));
        match ops[0] {
            LogOp::Put { key, value } => {
                lemma_parse_record_put(key, value, rest);
            },
            LogOp::Delete { key } => {
                lemma_parse_record_delete(key, rest);
            },
        }
        let n = op_bytes(ops[0]).len() as int;
        assert(parse_record(s) == Some((ops[0], n)));
        assert(op_bytes(ops[0]).len() >= 1) by {
            assert(vli_seq(0).len() >= 1);
        }
        assert(s.len() > 0);
        assert(s.skip(n) =~= rest);
        assert(ops_wf(ops.skip(1))) by {
            assert(forall|i: int| 0 <= i < ops.skip(1).len() ==> ops.skip(1)[i] == ops[i + 1]);
        }
        lemma_parse_ops(ops.skip(1));
        assert(parse_log(s) == Some(seq![ops[0]] + ops.skip(1)));
        assert(seq![ops[0]] + ops.skip(1) =~= ops);
    }
}

/// Appends a byte slice to a buffer.
pub fn append_bytes(buf: &mut Vec<u8>, data: &[u8])
    ensures
        final(buf)@ == old(buf)@ + data@,
{
    let mut i: usize = 0;
    while i < data.len()
        invariant
            0 <= i <= data@.len(),
            buf@ =~= old(buf)@ + data@.subrange(0, i as int),
        decreases data@.len() - i,
    {
        let b = *vstd::slice::slice_index_get(data, i);
        buf.push(b);
        proof {
            assert(buf@ =~= old(buf)@ + data@.subrange(0, i + 1));
        }
        i = i + 1;
    }
    proof {
        assert(data@.subrange(0, data@.len() as int) =~= data@);
    }
}

/// Frames a write record into the log buffer.
pub fn put_log(buf: &mut Vec<u8>, key: &[u8], value: &[u8])
    requires
        key@.len() <= i64::MAX,
        value@.len() <= i64::MAX,
    ensures
        final(buf)@ == old(buf)@ + rec_put(key@, value@),
{
    buf.push(WRITE);
    vli::encode(buf, key.len() as i64);
    append_bytes(buf, key);
    vli::encode(buf, value.len() as i64);
    append_bytes(buf, value);
    proof {
        assert(buf@ =~= old(buf)@ + rec_put(key@, value@));
    }
}

/// Copies one range of a buffer.
fn copy_range(buf: &Vec<u8>, start: usize, end: usize) -> (r: Vec<u8>)
    requires
        start <= end <= buf@.len(),
    ensures
        r@ == buf@.subrange(start as int, end as int),
{
    let mut out: Vec<u8> = Vec::new();
    let mut i: usize = start;
    while i < end
        invariant
            start <= i <= end <= buf@.len(),
            out@ =~= buf@.subrange(start as int, i as int),
        decreases end - i,
    {
        out.push(buf[i]);
        proof {
            assert(out@ =~= buf@.subrange(start as int, i + 1));
        }
        i = i + 1;
    }
    out
}

/// Replays a log buffer against a MemTable, applying each record in
/// order. Succeeds exactly when the buffer parses as a whole sequence
/// of records; then the table holds the parsed operations applied in
/// order to its prior contents. A malformed or truncated buffer fails
/// with a corruption error.
#[verifier::rlimit(100)]
pub fn replay(buf: &Vec<u8>, table: &mut MemTable) -> (r: Result<(), DbErr>)
    requires
        old(table).wf(),
        old(table).store_bytes + buf@.len() <= usize::MAX,
    ensures
        match r {
            Ok(()) => {
                &&& parse_log(buf@) is Some
                &&& final(table).wf()
                &&& final(table).as_map() == apply_ops(parse_log(buf@)->0, old(table).as_map())
            },
            Err(e) => {
                &&& e == DbErr::Corruption
                &&& parse_log(buf@) is None
            },
        },
{
    let ghost m0 = old(table).as_map();
    let ghost mut done: Seq<LogOp> = Seq::empty();
    let mut pos: usize = 0;
    proof {
        assert(buf@.skip(0) =~= buf@);
        assert(apply_ops(done, m0) == m0);
    }
    while pos < buf.len()
        invariant
            0 <= pos <= buf@.len(),
            table.wf(),
            old(table).store_bytes + buf@.len() <= usize::MAX,
            table.store_bytes <= old(table).store_bytes + pos,
            table.as_map() == apply_ops(done, m0),
            m0 == old(table).as_map(),
            parse_log(buf@.skip(pos as int)) is Some
                ==> parse_log(buf@) == Some(done + parse_log(buf@.skip(pos as int))->0),
            parse_log(buf@.skip(pos as int)) is None ==> parse_log(buf@) is None,
        decreases buf@.len() - pos,
    {
        let ghost s = buf@.skip(pos as int);
        proof {
            assert(s.len() > 0);
        }
        let tag = buf[pos];
        proof {
            assert(tag == s[0]);
        }
        if tag != WRITE && tag != DELETE {
            proof {
                assert(parse_record(s) is None);
            }
            return Err(DbErr::Corruption);
        }
        let (klen_i, p1) = match vli::decode(buf, pos + 1) {
            Ok(x) => x,
            Err(_) => {
                proof {
                    assert(buf@.skip(pos + 1) =~= s.skip(1));
                    assert(parse_record(s) is None);
                }
                return Err(DbErr::Corruption);
            },
        };
        proof {
            assert(buf@.skip(pos + 1) =~= s.skip(1));
        }
        let ghost n1 = p1 - (pos + 1);
        if klen_i < 0 || (klen_i as u64) > ((buf.len() - p1) as u64) {
            proof {
                assert(parse_record(s) is None);
            }
            return Err(DbErr::Corruption);
        }
        let klen: usize = klen_i as usize;
        let kend = p1 + klen;
        let key = copy_range(buf, p1, kend);
        proof {
            assert(key@ =~= s.subrange(1 + n1, 1 + n1 + klen_i as int));
        }
        if tag == WRITE {
            let (vlen_i, p2) = match vli::decode(buf, kend) {
                Ok(x) => x,
                Err(_) => {
                    proof {
                        assert(buf@.skip(kend as int) =~= s.skip(1 + n1 + klen_i as int));
                        assert(parse_record(s) is None);
                    }
                    return Err(DbErr::Corruption);
                },
            };
            proof {
                assert(buf@.skip(kend as int) =~= s.skip(1 + n1 + klen_i as int));
            }
            let ghost n2 = p2 - kend;
            if vlen_i < 0 || (vlen_i as u64) > ((buf.len() - p2) as u64) {
                proof {
                    assert(parse_record(s) is None);
                }
                return Err(DbErr::Corruption);
            }
            let vlen: usize = vlen_i as usize;
            let vend = p2 + vlen;
            let value = copy_range(buf, p2, vend);
            let ghost op = LogOp::Put { key: key@, value: value@ };
            let ghost n = 1 + n1 + klen_i as int + n2 + vlen_i as int;
            proof {
                assert(value@ =~= s.subrange(
                    1 + n1 + klen_i as int + n2,
                    1 + n1 + klen_i as int + n2 + vlen_i as int,
                ));
                assert(parse_record(s) == Some((op, n)));
                assert(n == vend - pos);
                assert(buf@.skip(vend as int) =~= s.skip(n));
                assert(parse_log(s) == match parse_log(s.skip(n)) {
                    None => None::<Seq<LogOp>>,
                    Some(ops) => Some(seq![op] + ops),
                });
            }
            table.put(key.as_slice(), value.as_slice(), true);
            proof {
                let done2 = done.push(op);
                assert(done2.drop_last() =~= done);
                assert(done2.last() == op);
                assert(apply_ops(done2, m0) == apply_op(apply_ops(done, m0), op));
                if parse_log(s.skip(n)) is Some {
                    let rest = parse_log(s.skip(n))->0;
                    assert(parse_log(s) == Some(seq![op] + rest));
                    assert(done + (seq![op] + rest) =~= done2 + rest);
                }
                done = done2;
            }
            pos = vend;
        } else {
            let ghost op = LogOp::Delete { key: key@ };
            let ghost n = 1 + n1 + klen_i as int;
            proof {
                assert(parse_record(s) == Some((op, n)));
                assert(n == kend - pos);
                assert(buf@.skip(kend as int) =~= s.skip(n));
                assert(parse_log(s) == match parse_log(s.skip(n)) {
                    None => None::<Seq<LogOp>>,
                    Some(ops) => Some(seq![op] + ops),
                });
            }
            table.delete(key.as_slice(), true);
            proof {
                let done2 = done.push(op);
                assert(done2.drop_last() =~= done);
                assert(done2.last() == op);
                assert(apply_ops(done2, m0) == apply_op(apply_ops(done, m0), op));
                if parse_log(s.skip(n)) is Some {
                    let rest = parse_log(s.skip(n))->0;
                    assert(parse_log(s) == Some(seq![op] + rest));
                    assert(done + (seq![op] + rest) =~= done2 + rest);
                }
                done = done2;
            }
            pos = kend;
        }
    }
    proof {
        assert(buf@.skip(pos as int).len() == 0);
        assert(parse_log(buf@.skip(pos as int)) == Some(Seq::<LogOp>::empty()));
        assert(done + Seq::<LogOp>::empty() =~= done);
    }
    Ok(())
}

/// Frames a delete record into the log buffer.
pub fn delete_log(buf: &mut Vec<u8>, key: &[u8])
    requires
        key@.len() <= i64::MAX,
    ensures
        final(buf)@ == old(buf)@ + rec_delete(key@),
{
    buf.push(DELETE);
    vli::encode(buf, key.len() as i64);
    append_bytes(buf, key);
    proof {
        assert(buf@ =~= old(buf)@ + rec_delete(key@));
    }
}

} // verus!
