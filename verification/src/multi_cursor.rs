//! A merged forward cursor over the MemTable and the persisted backend
//! levels. The merge resolves each key by precedence: the MemTable's
//! binding wins over any level, a higher level wins over a lower one,
//! and a tombstone in a winning layer suppresses the key altogether.
//! The cursor also mutates in place: updating or deleting at the
//! current key produces a new MemTable root by copy-on-write, together
//! with the value it replaced, so the caller can adjust the byte
//! accounting from the exact value that left.

use vstd::prelude::*;
use crate::keys::lex_lt;
use crate::mem_table::{
    Root, slot_view, slot_len, sorted, map_of, live_bytes, lemma_sorted_distinct,
    lemma_map_of_absent, clone_bytes,
};

verus! {

/// The live bindings of a slot map: tombstones and absence both read
/// as absent.
pub open spec fn live(m: Map<Seq<u8>, Option<Seq<u8>>>) -> Map<Seq<u8>, Seq<u8>> {
    Map::new(
        |k: Seq<u8>| m.contains_key(k) && m[k] is Some,
        |k: Seq<u8>| m[k]->0,
    )
}

/// Overlays a stack of slot maps: a later map's binding, value or
/// tombstone, wins over any earlier map's for the same key.
pub open spec fn union_stack(ms: Seq<Map<Seq<u8>, Option<Seq<u8>>>>) -> Map<Seq<u8>, Option<Seq<u8>>>
    decreases ms.len(),
{
    if ms.len() == 0 {
        Map::empty()
    } else {
        union_stack(ms.drop_last()).union_prefer_right(ms.last())
    }
}

/// The live entries of a sorted entry sequence, in order.
pub open spec fn live_seq(s: Seq<(Seq<u8>, Option<Seq<u8>>)>) -> Seq<(Seq<u8>, Seq<u8>)>
    decreases s.len(),
{
    if s.len() == 0 {
        Seq::empty()
    } else {
        live_seq(s.drop_last()) + match s.last().1 {
            Some(v) => seq![(s.last().0, v)],
            None => Seq::empty(),
        }
    }
}

/// Strictly increasing key order over live entries.
pub open spec fn sorted_live(s: Seq<(Seq<u8>, Seq<u8>)>) -> bool {
    forall|i: int, j: int| 0 <= i < j < s.len() ==> lex_lt(#[trigger] s[i].0, #[trigger] s[j].0)
}

/// The key/value map a live entry sequence denotes.
pub open spec fn map_of_live(s: Seq<(Seq<u8>, Seq<u8>)>) -> Map<Seq<u8>, Seq<u8>>
    decreases s.len(),
{
    if s.len() == 0 {
        Map::empty()
    } else {
        map_of_live(s.drop_last()).insert(s.last().0, s.last().1)
    }
}

/// Filtering a sorted entry sequence keeps the order and denotes
/// exactly the live bindings of its map.
pub proof fn lemma_live_seq(s: Seq<(Seq<u8>, Option<Seq<u8>>)>)
    requires
        sorted(s),
    ensures
        sorted_live(live_seq(s)),
        map_of_live(live_seq(s)) == live(map_of(s)),
        forall|i: int| 0 <= i < live_seq(s).len() ==> exists|j: int|
            0 <= j < s.len() && (#[trigger] live_seq(s)[i].0) == s[j].0,
    decreases s.len(),
{
    if s.len() == 0 {
        assert(map_of_live(live_seq(s)) =~= live(map_of(s)));
    } else {
        let dl = s.drop_last();
        let k = s.last().0;
        assert(sorted(dl));
        lemma_live_seq(dl);
        lemma_sorted_distinct(s);
        assert(forall|j: int| 0 <= j < dl.len() ==> (#[trigger] dl[j].0) != k);
        lemma_map_of_absent(dl, k);
        match s.last().1 {
            Some(v) => {
                let t = live_seq(s);
                assert(t =~= live_seq(dl) + seq![(k, v)]);
                assert(t.drop_last() =~= live_seq(dl));
                assert(t.last() == (k, v));
                assert(map_of_live(t) == map_of_live(live_seq(dl)).insert(k, v));
                assert(map_of_live(t) =~= live(map_of(s)));
                assert(sorted_live(t)) by {
                    assert forall|i: int, j: int| 0 <= i < j < t.len()
                        implies lex_lt(#[trigger] t[i].0, #[trigger] t[j].0) by {
                        if j == t.len() - 1 {
                            let jj = choose|jj: int| 0 <= jj < dl.len()
                                && (#[trigger] live_seq(dl)[i].0) == dl[jj].0;
                            assert(t[i].0 == dl[jj].0);
                            assert(lex_lt(s[jj].0, s[s.len() - 1].0));
                        }
                    }
                }
            },
            None => {
                let t = live_seq(s);
                assert(t =~= live_seq(dl));
                assert(live(map_of(s)) =~= live(map_of(dl))) by {
                    assert(!live(map_of(dl)).contains_key(k)) by {
                        assert(!map_of(dl).contains_key(k));
                    }
                }
            },
        }
    }
}

/// One take-step of an entry sequence adds one binding to its map.
proof fn lemma_map_of_take(s: Seq<(Seq<u8>, Option<Seq<u8>>)>, j: int)
    requires
        0 <= j < s.len(),
    ensures
        map_of(s.take(j + 1)) == map_of(s.take(j)).insert(s[j].0, s[j].1),
{
    assert(s.take(j + 1).drop_last() =~= s.take(j));
    assert(s.take(j + 1).last() == s[j]);
}

/// Inserting into the right operand of an overlay inserts into the
/// overlay.
proof fn lemma_union_insert(
    m: Map<Seq<u8>, Option<Seq<u8>>>,
    p: Map<Seq<u8>, Option<Seq<u8>>>,
    k: Seq<u8>,
    v: Option<Seq<u8>>,
)
    ensures
        m.union_prefer_right(p.insert(k, v)) == m.union_prefer_right(p).insert(k, v),
{
    assert(m.union_prefer_right(p.insert(k, v)) =~= m.union_prefer_right(p).insert(k, v));
}

/// The merged, ordered view of one MemTable version over a stack of
/// persisted levels, with a position for forward iteration.
pub struct MultiCursor {
    pub mem: Root,
    pub merged: Vec<(Vec<u8>, Vec<u8>)>,
    pub pos: usize,
}

impl MultiCursor {
    /// The ordered live entries the cursor walks.
    pub open spec fn merged_view(&self) -> Seq<(Seq<u8>, Seq<u8>)> {
        self.merged@.map_values(|p: (Vec<u8>, Vec<u8>)| (p.0@, p.1@))
    }

    pub open spec fn wf(&self) -> bool {
        &&& sorted(self.mem@)
        &&& sorted_live(self.merged_view())
    }

    /// Builds the merged view of `mem` over `levels`, lowest level
    /// first; the MemTable has the highest precedence. The cursor
    /// starts at the first (smallest) merged key.
    pub fn new(mem: Root, levels: Vec<Root>) -> (r: MultiCursor)
        requires
            mem.wf(),
            forall|i: int| 0 <= i < levels@.len() ==> (#[trigger] levels@[i]).wf(),
        ensures
            r.wf(),
            r.pos == 0,
            r.mem@ == mem@,
            map_of_live(r.merged_view()) == live(union_stack(
                levels@.map_values(|l: Root| l.as_map()).push(mem.as_map()),
            )),
    {
        let ghost lm = levels@.map_values(|l: Root| l.as_map());
        let mut acc = Root::new();
        proof {
            assert(acc.as_map() =~= union_stack(lm.take(0)));
        }
        let mut i: usize = 0;
        while i < levels.len()
            invariant
                0 <= i <= levels@.len(),
                lm == levels@.map_values(|l: Root| l.as_map()),
                forall|t: int| 0 <= t < levels@.len() ==> (#[trigger] levels@[t]).wf(),
                acc.wf(),
                acc.as_map() == union_stack(lm.take(i as int)),
            decreases levels@.len() - i,
        {
            let level = &levels[i];
            let ghost base = union_stack(lm.take(i as int));
            proof {
                assert(base.union_prefer_right(map_of(level@.take(0))) =~= base) by {
                    assert(map_of(level@.take(0)) =~= Map::<Seq<u8>, Option<Seq<u8>>>::empty());
                }
            }
            let mut j: usize = 0;
            while j < level.entries.len()
                invariant
                    0 <= j <= level@.len(),
                    level.wf(),
                    acc.wf(),
                    acc.as_map() == base.union_prefer_right(map_of(level@.take(j as int))),
                decreases level@.len() - j,
            {
                let (k, slot) = level.entry_at(j);
                let ghost prev_partial = map_of(level@.take(j as int));
                proof {
                    lemma_map_of_take(level@, j as int);
                    lemma_union_insert(base, prev_partial, level@[j as int].0, level@[j as int].1);
                }
                acc.set(k, slot);
                j = j + 1;
            }
            proof {
                assert(level@.take(level@.len() as int) =~= level@);
                assert(lm.take(i + 1).drop_last() =~= lm.take(i as int));
                assert(lm.take(i + 1).last() == lm[i as int]);
                assert(union_stack(lm.take(i + 1))
                    == union_stack(lm.take(i as int)).union_prefer_right(lm[i as int]));
                assert(lm[i as int] == levels@[i as int].as_map());
            }
            i = i + 1;
        }
        proof {
            assert(lm.take(lm.len() as int) =~= lm);
        }
        let ghost base = union_stack(lm);
        proof {
            assert(base.union_prefer_right(map_of(mem@.take(0))) =~= base) by {
                assert(map_of(mem@.take(0)) =~= Map::<Seq<u8>, Option<Seq<u8>>>::empty());
            }
        }
        let mut j: usize = 0;
        while j < mem.entries.len()
            invariant
                0 <= j <= mem@.len(),
                mem.wf(),
                acc.wf(),
                acc.as_map() == base.union_prefer_right(map_of(mem@.take(j as int))),
            decreases mem@.len() - j,
        {
            let (k, slot) = mem.entry_at(j);
            let ghost prev_partial = map_of(mem@.take(j as int));
            proof {
                lemma_map_of_take(mem@, j as int);
                lemma_union_insert(base, prev_partial, mem@[j as int].0, mem@[j as int].1);
            }
            acc.set(k, slot);
            j = j + 1;
        }
        proof {
            assert(mem@.take(mem@.len() as int) =~= mem@);
            assert(lm.push(mem.as_map()).drop_last() =~= lm);
            assert(lm.push(mem.as_map()).last() == mem.as_map());
            assert(acc.as_map() == union_stack(lm.push(mem.as_map())));
            lemma_live_seq(acc@);
        }
        let mut merged: Vec<(Vec<u8>, Vec<u8>)> = Vec::new();
        let mut j: usize = 0;
        while j < acc.entries.len()
            invariant
                0 <= j <= acc@.len(),
                acc.wf(),
                merged@.map_values(|p: (Vec<u8>, Vec<u8>)| (p.0@, p.1@))
                    =~= live_seq(acc@.take(j as int)),
            decreases acc@.len() - j,
        {
            let (k, slot) = acc.entry_at(j);
            proof {
                assert(acc@.take(j + 1).drop_last() =~= acc@.take(j as int));
                assert(acc@.take(j + 1).last() == acc@[j as int]);
            }
            match slot {
                Some(v) => {
                    merged.push((k, v));
                    proof {
                        assert(merged@.map_values(|p: (Vec<u8>, Vec<u8>)| (p.0@, p.1@))
                            =~= live_seq(acc@.take(j + 1)));
                    }
                },
                None => {
                    proof {
                        assert(live_seq(acc@.take(j + 1)) =~= live_seq(acc@.take(j as int)));
                    }
                },
            }
            j = j + 1;
        }
        proof {
            assert(acc@.take(acc@.len() as int) =~= acc@);
        }
        let r = MultiCursor { mem, merged, pos: 0 };
        proof {
            assert(r.merged_view() =~= live_seq(acc@));
        }
        r
    }

    /// The key at the cursor's position, or nothing at exhaustion.
    pub fn key(&self) -> (r: Option<Vec<u8>>)
        ensures
            match r {
                Some(k) => self.pos < self.merged_view().len()
                    && k@ == self.merged_view()[self.pos as int].0,
                None => self.pos >= self.merged_view().len(),
            },
    {
        if self.pos < self.merged.len() {
            Some(clone_bytes(&self.merged[self.pos].0))
        } else {
            None
        }
    }

    /// The value at the cursor's position, or nothing at exhaustion.
    pub fn value(&self) -> (r: Option<Vec<u8>>)
        ensures
            match r {
                Some(v) => self.pos < self.merged_view().len()
                    && v@ == self.merged_view()[self.pos as int].1,
                None => self.pos >= self.merged_view().len(),
            },
    {
        if self.pos < self.merged.len() {
            Some(clone_bytes(&self.merged[self.pos].1))
        } else {
            None
        }
    }

    /// Steps to the next merged key, if any is left.
    pub fn next(&mut self)
        ensures
            final(self).mem == old(self).mem,
            final(self).merged_view() == old(self).merged_view(),
            final(self).pos == if old(self).pos < old(self).merged_view().len() {
                old(self).pos + 1
            } else {
                old(self).pos as int
            },
    {
        if self.pos < self.merged.len() {
            self.pos = self.pos + 1;
        }
    }

    /// Rewrites the value at the cursor's current key by a
    /// copy-on-write update of the MemTable tree. Returns the new root
    /// and the value the MemTable layer previously held for the key,
    /// if any, so that the caller can adjust the byte accounting; or
    /// nothing when the cursor is not positioned on a live key.
    pub fn update_current(&mut self, value: &[u8]) -> (r: Option<(Root, Option<Vec<u8>>)>)
        requires
            old(self).wf(),
        ensures
            final(self).wf(),
            old(self).pos >= old(self).merged_view().len() ==> r is None
                && *final(self) == *old(self),
            old(self).pos < old(self).merged_view().len() ==> match r {
                Some((root, legacy)) => {
                    let k = old(self).merged_view()[old(self).pos as int].0;
                    &&& root.wf()
                    &&& map_of(root@) == map_of(old(self).mem@).insert(k, Some(value@))
                    &&& match legacy {
                        Some(v) => map_of(old(self).mem@).contains_key(k)
                            && map_of(old(self).mem@)[k] == Some(v@)
                            && v@.len() <= live_bytes(old(self).mem@),
                        None => !map_of(old(self).mem@).contains_key(k)
                            || map_of(old(self).mem@)[k] is None,
                    }
                    &&& live_bytes(root@) + slot_len(slot_view(legacy))
                        == live_bytes(old(self).mem@) + value@.len()
                    &&& final(self).mem@ == root@
                    &&& final(self).merged_view() == old(self).merged_view().update(
                        old(self).pos as int, (k, value@))
                    &&& final(self).pos == old(self).pos
                },
                None => false,
            },
    {
        if self.pos >= self.merged.len() {
            return None;
        }
        let k = clone_bytes(&self.merged[self.pos].0);
        let mut nr = self.mem.snapshot();
        let prev = nr.set(k, Some(vstd::slice::slice_to_vec(value)));
        let root_ret = nr.snapshot();
        self.mem = nr;
        let old_pair = self.merged.remove(self.pos);
        self.merged.insert(self.pos, (old_pair.0, vstd::slice::slice_to_vec(value)));
        let legacy = match prev {
            Some(Some(v)) => Some(v),
            _ => None,
        };
        proof {
            assert(final(self).merged_view() =~= old(self).merged_view().update(
                old(self).pos as int,
                (old(self).merged_view()[old(self).pos as int].0, value@)));
            assert(sorted_live(final(self).merged_view())) by {
                assert(forall|t: int| 0 <= t < final(self).merged_view().len()
                    ==> (#[trigger] final(self).merged_view()[t].0)
                        == old(self).merged_view()[t].0);
            }
        }
        Some((root_ret, legacy))
    }

    /// Inserts a tombstone at the cursor's current key by a
    /// copy-on-write update of the MemTable tree. Returns the new root
    /// and the value the MemTable layer previously held for the key,
    /// if any; or nothing when the cursor is not positioned on a live
    /// key. The merged view drops the key.
    pub fn delete_current(&mut self) -> (r: Option<(Root, Option<Vec<u8>>)>)
        requires
            old(self).wf(),
        ensures
            final(self).wf(),
            old(self).pos >= old(self).merged_view().len() ==> r is None
                && *final(self) == *old(self),
            old(self).pos < old(self).merged_view().len() ==> match r {
                Some((root, legacy)) => {
                    let k = old(self).merged_view()[old(self).pos as int].0;
                    &&& root.wf()
                    &&& map_of(root@) == map_of(old(self).mem@).insert(k, None)
                    &&& match legacy {
                        Some(v) => map_of(old(self).mem@).contains_key(k)
                            && map_of(old(self).mem@)[k] == Some(v@)
                            && v@.len() <= live_bytes(old(self).mem@),
                        None => !map_of(old(self).mem@).contains_key(k)
                            || map_of(old(self).mem@)[k] is None,
                    }
                    &&& live_bytes(root@) + slot_len(slot_view(legacy))
                        == live_bytes(old(self).mem@)
                    &&& final(self).mem@ == root@
                    &&& final(self).merged_view() == old(self).merged_view().remove(
                        old(self).pos as int)
                    &&& final(self).pos == old(self).pos
                },
                None => false,
            },
    {
        if self.pos >= self.merged.len() {
            return None;
        }
        let k = clone_bytes(&self.merged[self.pos].0);
        let mut nr = self.mem.snapshot();
        let prev = nr.set(k, None);
        let root_ret = nr.snapshot();
        self.mem = nr;
        let _removed = self.merged.remove(self.pos);
        let legacy = match prev {
            Some(Some(v)) => Some(v),
            _ => None,
        };
        proof {
            assert(final(self).merged_view() =~= old(self).merged_view().remove(
                old(self).pos as int));
            assert(sorted_live(final(self).merged_view())) by {
                let ov = old(self).merged_view();
                let nv = final(self).merged_view();
                let p = old(self).pos as int;
                assert forall|a: int, b: int| 0 <= a < b < nv.len()
                    implies lex_lt(#[trigger] nv[a].0, #[trigger] nv[b].0) by {
                    let aa = if a < p { a } else { a + 1 };
                    let bb = if b < p { b } else { b + 1 };
                    assert(nv[a] == ov[aa]);
                    assert(nv[b] == ov[bb]);
                    assert(lex_lt(ov[aa].0, ov[bb].0));
                }
            }
        }
        Some((root_ret, legacy))
    }
}

/// Merge precedence: a key the MemTable binds to a value reads as that
/// value whatever any backend level holds; a key the MemTable holds a
/// tombstone for reads as absent; a key the MemTable does not mention
/// falls through to the levels.
pub proof fn lemma_merge_precedence(
    mem_m: Map<Seq<u8>, Option<Seq<u8>>>,
    lm: Seq<Map<Seq<u8>, Option<Seq<u8>>>>,
    k: Seq<u8>,
)
    ensures
        mem_m.contains_key(k) && mem_m[k] is Some ==> {
            &&& live(union_stack(lm.push(mem_m))).contains_key(k)
            &&& live(union_stack(lm.push(mem_m)))[k] == mem_m[k]->0
        },
        mem_m.contains_key(k) && mem_m[k] is None
            ==> !live(union_stack(lm.push(mem_m))).contains_key(k),
        !mem_m.contains_key(k) ==> {
            &&& live(union_stack(lm.push(mem_m))).contains_key(k)
                == live(union_stack(lm)).contains_key(k)
            &&& live(union_stack(lm)).contains_key(k)
                ==> live(union_stack(lm.push(mem_m)))[k] == live(union_stack(lm))[k]
        },
{
    assert(lm.push(mem_m).drop_last() =~= lm);
    assert(lm.push(mem_m).last() == mem_m);
    assert(union_stack(lm.push(mem_m)) == union_stack(lm).union_prefer_right(mem_m));
}

/// Precedence after a write: once the MemTable binds `k` to `vm`, the
/// merged view over any stack of backend levels reads `vm` at `k`,
/// whatever value any level holds for that key.
pub proof fn lemma_put_wins_merge(
    mem_m: Map<Seq<u8>, Option<Seq<u8>>>,
    lm: Seq<Map<Seq<u8>, Option<Seq<u8>>>>,
    k: Seq<u8>,
    vm: Seq<u8>,
)
    ensures
        live(union_stack(lm.push(mem_m.insert(k, Some(vm))))).contains_key(k),
        live(union_stack(lm.push(mem_m.insert(k, Some(vm)))))[k] == vm,
{
    lemma_merge_precedence(mem_m.insert(k, Some(vm)), lm, k);
}

/// Suppression after a delete: once the MemTable holds a tombstone
/// for `k`, the merged view over any stack of backend levels lacks
/// `k`, even where a level still stores a value for it.
pub proof fn lemma_delete_suppresses_merge(
    mem_m: Map<Seq<u8>, Option<Seq<u8>>>,
    lm: Seq<Map<Seq<u8>, Option<Seq<u8>>>>,
    k: Seq<u8>,
)
    ensures
        !live(union_stack(lm.push(mem_m.insert(k, None)))).contains_key(k),
{
    lemma_merge_precedence(mem_m.insert(k, None), lm, k);
}

/// The map of a live entry sequence holds each entry's binding,
/// provided the keys stand in strictly increasing order.
proof fn lemma_map_of_live_index(s: Seq<(Seq<u8>, Seq<u8>)>, i: int)
    requires
        sorted_live(s),
        0 <= i < s.len(),
    ensures
        map_of_live(s).contains_key(s[i].0),
        map_of_live(s)[s[i].0] == s[i].1,
    decreases s.len(),
{
    if i == s.len() - 1 {
    } else {
        crate::keys::lemma_lex_trichotomy(s[i].0, s[s.len() - 1].0);
        lemma_map_of_live_index(s.drop_last(), i);
    }
}

/// Every position of a well-formed merged view carries a binding of
/// its map: a key absent from the map is yielded at no position of a
/// full scan.
pub proof fn lemma_merged_view_positions(s: Seq<(Seq<u8>, Seq<u8>)>)
    requires
        sorted_live(s),
    ensures
        forall|i: int| 0 <= i < s.len() ==> map_of_live(s).contains_key((#[trigger] s[i]).0)
            && map_of_live(s)[s[i].0] == s[i].1,
{
    assert forall|i: int| 0 <= i < s.len() implies map_of_live(s).contains_key((#[trigger] s[i]).0)
        && map_of_live(s)[s[i].0] == s[i].1 by {
        lemma_map_of_live_index(s, i);
    }
}

} // verus!
