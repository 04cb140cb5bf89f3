//! The in-memory mutable index: a persistent sorted table mapping byte
//! keys to byte values or tombstones. Mutation goes through a root
//! value; a snapshot of the root is an immutable copy that later
//! mutations never touch, so outstanding readers keep a consistent
//! view. The table tracks `store_bytes`, the running total of live
//! value bytes (tombstones contribute zero).

use vstd::prelude::*;
use crate::keys::{lex_lt, key_cmp, KeyCmp, lemma_lex_trichotomy, lemma_lex_trans};

verus! {

/// One slot of the table: a live value or a tombstone.
pub struct Entry {
    pub key: Vec<u8>,
    pub value: Option<Vec<u8>>,
}

/// The ghost image of a stored slot.
pub open spec fn slot_view(s: Option<Vec<u8>>) -> Option<Seq<u8>> {
    match s {
        Some(v) => Some(v@),
        None => None,
    }
}

/// The byte count a slot contributes: its value's length, or zero for
/// a tombstone.
pub open spec fn slot_len(s: Option<Seq<u8>>) -> nat {
    match s {
        Some(v) => v.len(),
        None => 0,
    }
}

/// Entries stand in strictly increasing key order.
pub open spec fn sorted(s: Seq<(Seq<u8>, Option<Seq<u8>>)>) -> bool {
    forall|i: int, j: int| 0 <= i < j < s.len() ==> lex_lt(#[trigger] s[i].0, #[trigger] s[j].0)
}

/// The key/slot map an entry sequence denotes.
pub open spec fn map_of(s: Seq<(Seq<u8>, Option<Seq<u8>>)>) -> Map<Seq<u8>, Option<Seq<u8>>>
    decreases s.len(),
{
    if s.len() == 0 {
        Map::empty()
    } else {
        map_of(s.drop_last()).insert(s.last().0, s.last().1)
    }
}

/// Total length of the live values in an entry sequence.
pub open spec fn live_bytes(s: Seq<(Seq<u8>, Option<Seq<u8>>)>) -> nat
    decreases s.len(),
{
    if s.len() == 0 {
        0
    } else {
        live_bytes(s.drop_last()) + slot_len(s.last().1)
    }
}

/// In a sorted sequence all keys are distinct.
pub proof fn lemma_sorted_distinct(s: Seq<(Seq<u8>, Option<Seq<u8>>)>)
    requires
        sorted(s),
    ensures
        forall|i: int, j: int|
            0 <= i < s.len() && 0 <= j < s.len() && i != j ==> #[trigger] s[i].0 != #[trigger] s[j].0,
{
    assert forall|i: int, j: int|
        0 <= i < s.len() && 0 <= j < s.len() && i != j implies #[trigger] s[i].0 != #[trigger] s[j].0 by {
        lemma_lex_trichotomy(s[i].0, s[j].0);
    }
}

/// The map holds each entry's slot, provided no later entry repeats its key.
pub proof fn lemma_map_of_index(s: Seq<(Seq<u8>, Option<Seq<u8>>)>, i: int)
    requires
        0 <= i < s.len(),
        forall|j: int| i < j < s.len() ==> (#[trigger] s[j].0) != s[i].0,
    ensures
        map_of(s).contains_key(s[i].0),
        map_of(s)[s[i].0] == s[i].1,
    decreases s.len(),
{
    if i == s.len() - 1 {
    } else {
        lemma_map_of_index(s.drop_last(), i);
    }
}

/// A key under no entry is not in the map.
pub proof fn lemma_map_of_absent(s: Seq<(Seq<u8>, Option<Seq<u8>>)>, k: Seq<u8>)
    requires
        forall|j: int| 0 <= j < s.len() ==> (#[trigger] s[j].0) != k,
    ensures
        !map_of(s).contains_key(k),
    decreases s.len(),
{
    if s.len() > 0 {
        lemma_map_of_absent(s.drop_last(), k);
    }
}

/// Replacing the slot at one entry replaces one binding of the map.
pub proof fn lemma_map_of_update(s: Seq<(Seq<u8>, Option<Seq<u8>>)>, i: int, v: Option<Seq<u8>>)
    requires
        0 <= i < s.len(),
        forall|j: int| 0 <= j < s.len() && j != i ==> (#[trigger] s[j].0) != s[i].0,
    ensures
        map_of(s.update(i, (s[i].0, v))) == map_of(s).insert(s[i].0, v),
    decreases s.len(),
{
    let t = s.update(i, (s[i].0, v));
    if i == s.len() - 1 {
        assert(t.drop_last() =~= s.drop_last());
        assert(map_of(t) =~= map_of(s).insert(s[i].0, v));
    } else {
        assert(t.drop_last() =~= s.drop_last().update(i, (s[i].0, v)));
        lemma_map_of_update(s.drop_last(), i, v);
        assert(t.last() == s.last());
        assert(map_of(t) =~= map_of(s).insert(s[i].0, v));
    }
}

/// Placing a fresh key at any position adds one binding to the map.
pub proof fn lemma_map_of_insert(
    s: Seq<(Seq<u8>, Option<Seq<u8>>)>,
    i: int,
    k: Seq<u8>,
    v: Option<Seq<u8>>,
)
    requires
        0 <= i <= s.len(),
        forall|j: int| 0 <= j < s.len() ==> (#[trigger] s[j].0) != k,
    ensures
        map_of(s.insert(i, (k, v))) == map_of(s).insert(k, v),
    decreases s.len(),
{
    let t = s.insert(i, (k, v));
    if i == s.len() {
        assert(t.drop_last() =~= s);
        assert(t.last() == (k, v));
    } else {
        assert(t.drop_last() =~= s.drop_last().insert(i, (k, v)));
        lemma_map_of_insert(s.drop_last(), i, k, v);
        assert(t.last() == s.last());
        assert(map_of(t) =~= map_of(s).insert(k, v));
    }
}

/// Replacing one slot shifts the live total by the two slots' lengths.
pub proof fn lemma_live_bytes_update(s: Seq<(Seq<u8>, Option<Seq<u8>>)>, i: int, v: Option<Seq<u8>>)
    requires
        0 <= i < s.len(),
    ensures
        live_bytes(s.update(i, (s[i].0, v))) + slot_len(s[i].1) == live_bytes(s) + slot_len(v),
    decreases s.len(),
{
    let t = s.update(i, (s[i].0, v));
    if i == s.len() - 1 {
        assert(t.drop_last() =~= s.drop_last());
    } else {
        assert(t.drop_last() =~= s.drop_last().update(i, (s[i].0, v)));
        lemma_live_bytes_update(s.drop_last(), i, v);
        assert(t.last() == s.last());
    }
}

/// Placing one entry adds its slot's length to the live total.
pub proof fn lemma_live_bytes_insert(s: Seq<(Seq<u8>, Option<Seq<u8>>)>, i: int, p: (Seq<u8>, Option<Seq<u8>>))
    requires
        0 <= i <= s.len(),
    ensures
        live_bytes(s.insert(i, p)) == live_bytes(s) + slot_len(p.1),
    decreases s.len(),
{
    let t = s.insert(i, p);
    if i == s.len() {
        assert(t.drop_last() =~= s);
        assert(t.last() == p);
    } else {
        assert(t.drop_last() =~= s.drop_last().insert(i, p));
        lemma_live_bytes_insert(s.drop_last(), i, p);
        assert(t.last() == s.last());
    }
}

/// No slot is longer than the live total.
pub proof fn lemma_live_bytes_at(s: Seq<(Seq<u8>, Option<Seq<u8>>)>, i: int)
    requires
        0 <= i < s.len(),
    ensures
        slot_len(s[i].1) <= live_bytes(s),
    decreases s.len(),
{
    if i == s.len() - 1 {
    } else {
        lemma_live_bytes_at(s.drop_last(), i);
    }
}

/// Copies a byte vector.
pub fn clone_bytes(v: &Vec<u8>) -> (r: Vec<u8>)
    ensures
        r@ == v@,
{
    let r = v.clone();
    proof {
        assert(r@ =~= v@);
    }
    r
}

/// Copies a slot.
pub fn clone_slot(s: &Option<Vec<u8>>) -> (r: Option<Vec<u8>>)
    ensures
        slot_view(r) == slot_view(*s),
{
    match s {
        Some(v) => Some(clone_bytes(v)),
        None => None,
    }
}

/// One version of the copy-on-write table: a handle to an immutable
/// snapshot once taken with [`Root::snapshot`].
pub struct Root {
    pub entries: Vec<Entry>,
}

impl View for Root {
    type V = Seq<(Seq<u8>, Option<Seq<u8>>)>;

    open spec fn view(&self) -> Seq<(Seq<u8>, Option<Seq<u8>>)> {
        self.entries@.map_values(|e: Entry| (e.key@, slot_view(e.value)))
    }
}

impl Root {
    /// The tree with no entries.
    pub fn new() -> (r: Root)
        ensures
            r@ =~= Seq::<(Seq<u8>, Option<Seq<u8>>)>::empty(),
            r.wf(),
    {
        Root { entries: Vec::new() }
    }

    /// Entries are strictly sorted by key.
    pub open spec fn wf(&self) -> bool {
        sorted(self@)
    }

    /// The key/slot map this version denotes.
    pub open spec fn as_map(&self) -> Map<Seq<u8>, Option<Seq<u8>>> {
        map_of(self@)
    }

    pub fn len(&self) -> (n: usize)
        ensures
            n == self@.len(),
    {
        self.entries.len()
    }

    /// Copies out the entry at a position.
    pub fn entry_at(&self, i: usize) -> (r: (Vec<u8>, Option<Vec<u8>>))
        requires
            i < self@.len(),
        ensures
            r.0@ == self@[i as int].0,
            slot_view(r.1) == self@[i as int].1,
    {
        let e = &self.entries[i];
        (clone_bytes(&e.key), clone_slot(&e.value))
    }

    /// An independent copy of this version: later mutations of either
    /// copy leave the other exactly as it stands.
    pub fn snapshot(&self) -> (r: Root)
        ensures
            r@ == self@,
    {
        let mut out: Vec<Entry> = Vec::new();
        let mut i: usize = 0;
        while i < self.entries.len()
            invariant
                0 <= i <= self.entries@.len(),
                out@.len() == i,
                forall|j: int| 0 <= j < i ==> (#[trigger] out@[j]).key@ == self.entries@[j].key@
                    && slot_view(out@[j].value) == slot_view(self.entries@[j].value),
            decreases self.entries@.len() - i,
        {
            let e = &self.entries[i];
            out.push(Entry { key: clone_bytes(&e.key), value: clone_slot(&e.value) });
            i = i + 1;
        }
        let r = Root { entries: out };
        proof {
            assert(r@ =~= self@);
        }
        r
    }

    /// Position of the first entry whose key is not below `key`.
    fn find(&self, key: &Vec<u8>) -> (i: usize)
        requires
            self.wf(),
        ensures
            0 <= i <= self@.len(),
            forall|j: int| 0 <= j < i ==> lex_lt(#[trigger] self@[j].0, key@),
            i < self@.len() ==> !lex_lt(self@[i as int].0, key@),
    {
        let mut i: usize = 0;
        while i < self.entries.len()
            invariant
                0 <= i <= self.entries@.len(),
                forall|j: int| 0 <= j < i ==> lex_lt(#[trigger] self@[j].0, key@),
            decreases self.entries@.len() - i,
        {
            let c = key_cmp(&self.entries[i].key, key);
            if !matches!(c, KeyCmp::Less) {
                return i;
            }
            i = i + 1;
        }
        i
    }

    /// Looks a key up; a tombstone reads as absent.
    pub fn get(&self, key: &Vec<u8>) -> (r: Option<Vec<u8>>)
        requires
            self.wf(),
        ensures
            match r {
                Some(v) => self.as_map().contains_key(key@)
                    && self.as_map()[key@] == Some(v@),
                None => !self.as_map().contains_key(key@)
                    || self.as_map()[key@] is None,
            },
    {
        let i = self.find(key);
        proof {
            lemma_sorted_distinct(self@);
        }
        if i < self.entries.len() {
            let c = key_cmp(&self.entries[i].key, key);
            if matches!(c, KeyCmp::Equal) {
                proof {
                    lemma_map_of_index(self@, i as int);
                }
                return clone_slot(&self.entries[i].value);
            }
        }
        proof {
            assert forall|j: int| 0 <= j < self@.len() implies (#[trigger] self@[j].0) != key@ by {
                lemma_lex_trichotomy(self@[j].0, key@);
                if j >= i {
                    if j > i {
                        assert(lex_lt(self@[i as int].0, self@[j].0));
                    }
                    lemma_lex_trichotomy(self@[i as int].0, key@);
                    if lex_lt(key@, self@[i as int].0) && j > i {
                        lemma_lex_trans(key@, self@[i as int].0, self@[j].0);
                    }
                    lemma_lex_trichotomy(key@, self@[j].0);
                }
            }
            lemma_map_of_absent(self@, key@);
        }
        None
    }

    /// Binds `key` to `slot` in place, returning the slot it replaced,
    /// if the key was present. The map gains exactly this binding; the
    /// live total moves by the lengths of the outgoing and incoming
    /// slots.
    pub fn set(&mut self, key: Vec<u8>, slot: Option<Vec<u8>>) -> (prev: Option<Option<Vec<u8>>>)
        requires
            old(self).wf(),
        ensures
            final(self).wf(),
            final(self).as_map() == old(self).as_map().insert(key@, slot_view(slot)),
            match prev {
                Some(p) => old(self).as_map().contains_key(key@)
                    && slot_view(p) == old(self).as_map()[key@]
                    && slot_len(slot_view(p)) <= live_bytes(old(self)@),
                None => !old(self).as_map().contains_key(key@),
            },
            live_bytes(final(self)@) + match prev {
                Some(p) => slot_len(slot_view(p)),
                None => 0,
            } == live_bytes(old(self)@) + slot_len(slot_view(slot)),
    {
        let i = self.find(&key);
        proof {
            lemma_sorted_distinct(self@);
        }
        if i < self.entries.len() {
            let c = key_cmp(&self.entries[i].key, &key);
            if matches!(c, KeyCmp::Equal) {
                let ghost s0 = self@;
                proof {
                    lemma_map_of_index(s0, i as int);
                    lemma_map_of_update(s0, i as int, slot_view(slot));
                    lemma_live_bytes_update(s0, i as int, slot_view(slot));
                    lemma_live_bytes_at(s0, i as int);
                }
                let old_entry = self.entries.remove(i);
                self.entries.insert(i, Entry { key, value: slot });
                proof {
                    assert(self@ =~= s0.update(i as int, (s0[i as int].0, slot_view(slot))));
                    assert(sorted(self@)) by {
                        assert(forall|j: int| 0 <= j < self@.len() ==> (#[trigger] self@[j].0)
                            == s0[j].0);
                    }
                }
                return Some(old_entry.value);
            }
        }
        let ghost s0 = self@;
        proof {
            assert forall|j: int| 0 <= j < s0.len() implies (#[trigger] s0[j].0) != key@ by {
                lemma_lex_trichotomy(s0[j].0, key@);
                if j >= i {
                    if j > i {
                        assert(lex_lt(s0[i as int].0, s0[j].0));
                    }
                    lemma_lex_trichotomy(s0[i as int].0, key@);
                    if lex_lt(key@, s0[i as int].0) && j > i {
                        lemma_lex_trans(key@, s0[i as int].0, s0[j].0);
                    }
                    lemma_lex_trichotomy(key@, s0[j].0);
                }
            }
            lemma_map_of_absent(s0, key@);
            lemma_map_of_insert(s0, i as int, key@, slot_view(slot));
            lemma_live_bytes_insert(s0, i as int, (key@, slot_view(slot)));
        }
        self.entries.insert(i, Entry { key, value: slot });
        proof {
            assert(self@ =~= s0.insert(i as int, (key@, slot_view(slot))));
            assert(sorted(self@)) by {
                assert forall|a: int, b: int| 0 <= a < b < self@.len()
                    implies lex_lt(#[trigger] self@[a].0, #[trigger] self@[b].0) by {
                    if a < i && b == i {
                    } else if a == i {
                        assert(self@[b] == s0[b - 1]);
                        lemma_lex_trichotomy(s0[i as int].0, key@);
                        if b - 1 > i {
                            lemma_lex_trans(key@, s0[i as int].0, s0[b - 1].0);
                        }
                    } else if b > i && a < i {
                        assert(self@[b] == s0[b - 1]);
                        if b - 1 > a {
                            assert(lex_lt(s0[a].0, s0[b - 1].0));
                        }
                    } else if a > i {
                        assert(self@[a] == s0[a - 1]);
                        assert(self@[b] == s0[b - 1]);
                    }
                }
            }
        }
        None
    }
}

/// The mutable in-memory index of a session: the current tree version
/// and the running total of live value bytes.
pub struct MemTable {
    pub root: Root,
    pub store_bytes: usize,
}

impl MemTable {
    /// The current version is sorted and `store_bytes` is exactly the
    /// total length of the live values reachable from it.
    pub open spec fn wf(&self) -> bool {
        &&& self.root.wf()
        &&& self.store_bytes == live_bytes(self.root@)
    }

    /// The key/slot map of the current version.
    pub open spec fn as_map(&self) -> Map<Seq<u8>, Option<Seq<u8>>> {
        self.root.as_map()
    }

    /// An empty table.
    pub fn new() -> (r: MemTable)
        ensures
            r.wf(),
            r.as_map() =~= Map::<Seq<u8>, Option<Seq<u8>>>::empty(),
            r.root@ =~= Seq::<(Seq<u8>, Option<Seq<u8>>)>::empty(),
            r.store_bytes == 0,
    {
        MemTable { root: Root::new(), store_bytes: 0 }
    }

    /// Inserts or overwrites a binding. The flag marks a write replayed
    /// from the backend rather than issued by the primary session; the
    /// byte accounting is kept exact either way, so no write is ever
    /// counted twice.
    pub fn put(&mut self, key: &[u8], value: &[u8], _is_backend_applying: bool)
        requires
            old(self).wf(),
            old(self).store_bytes + value@.len() <= usize::MAX,
        ensures
            final(self).wf(),
            final(self).as_map() == old(self).as_map().insert(key@, Some(value@)),
            final(self).store_bytes <= old(self).store_bytes + value@.len(),
    {
        let k = vstd::slice::slice_to_vec(key);
        let v = vstd::slice::slice_to_vec(value);
        let prev = self.root.set(k, Some(v));
        match prev {
            Some(Some(oldv)) => {
                self.store_bytes = self.store_bytes - oldv.len() + value.len();
            },
            _ => {
                self.store_bytes = self.store_bytes + value.len();
            },
        }
    }

    /// Marks a key deleted with a tombstone. Only the replaced value's
    /// length leaves the byte accounting: the key and the tombstone
    /// keep occupying space until a compaction pass reclaims them.
    pub fn delete(&mut self, key: &[u8], _is_backend_applying: bool)
        requires
            old(self).wf(),
        ensures
            final(self).wf(),
            final(self).as_map() == old(self).as_map().insert(key@, None),
            final(self).store_bytes <= old(self).store_bytes,
    {
        let k = vstd::slice::slice_to_vec(key);
        let prev = self.root.set(k, None);
        match prev {
            Some(Some(oldv)) => {
                self.store_bytes = self.store_bytes - oldv.len();
            },
            _ => {},
        }
    }

    /// Swaps in a new tree version, as produced by a cursor's
    /// copy-on-write mutation; the byte accounting is the caller's to
    /// adjust through [`MemTable::store_bytes_mut`].
    pub fn update_root(&mut self, new_root: Root)
        ensures
            final(self).root == new_root,
            final(self).store_bytes == old(self).store_bytes,
    {
        self.root = new_root;
    }

    /// The running total of live value bytes.
    pub fn store_bytes(&self) -> (n: usize)
        ensures
            n == self.store_bytes,
    {
        self.store_bytes
    }

    /// The byte counter, for adjustment by callers that mutate through
    /// a cursor rather than by direct put or delete.
    pub fn store_bytes_mut(&mut self) -> (r: &mut usize)
        ensures
            *r == old(self).store_bytes,
            final(self).root == old(self).root,
            final(self).store_bytes == *final(r),
    {
        &mut self.store_bytes
    }

    /// A snapshot of the current version, untouched by later mutation.
    pub fn root(&self) -> (r: Root)
        ensures
            r@ == self.root@,
    {
        self.root.snapshot()
    }
}

/// MemTable isolation: a snapshot is a value of its own, and `put`
/// mutates only the table it is called on. So a root `r1` taken after
/// binding `k` to `v1` still reads `v1` at `k`, while the version a
/// later `put` of `v2` produces reads `v2` — the snapshot observes no
/// later mutation.
pub proof fn lemma_snapshot_isolation(
    m: Map<Seq<u8>, Option<Seq<u8>>>,
    r1: Root,
    k: Seq<u8>,
    v1: Seq<u8>,
    v2: Seq<u8>,
)
    requires
        r1.as_map() == m.insert(k, Some(v1)),
    ensures
        r1.as_map().contains_key(k) && r1.as_map()[k] == Some(v1),
        m.insert(k, Some(v1)).insert(k, Some(v2))[k] == Some(v2),
{
}

/// Byte accounting: after any sequence of put and delete operations —
/// each of which preserves well-formedness — `store_bytes` equals the
/// total length of the values currently live in the table; tombstoned
/// keys contribute nothing.
pub proof fn lemma_byte_accounting(m: MemTable)
    requires
        m.wf(),
    ensures
        m.store_bytes == live_bytes(m.root@),
{
}

} // verus!
