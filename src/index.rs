//! In-memory index from key to the journal frame of its latest write.
use vstd::prelude::*;
use crate::codec::{RecordView, record_bytes};
use crate::journal::{replay, offset_of, frames, lemma_offset_push};

verus! {

/// Where the latest write of a key stands in the journal.
pub struct Slot {
    pub key: String,
    pub offset: usize,
    pub len: usize,
}

/// Total frame length of the entries.
pub open spec fn live_len(e: Seq<Slot>) -> nat
    decreases e.len(),
{
    if e.len() == 0 {
        0
    } else {
        live_len(e.drop_last()) + e.last().len as nat
    }
}

proof fn lemma_live_len_concat(a: Seq<Slot>, b: Seq<Slot>)
    ensures
        live_len(a + b) == live_len(a) + live_len(b),
    decreases b.len(),
{
    if b.len() == 0 {
        assert(a + b =~= a);
    } else {
        lemma_live_len_concat(a, b.drop_last());
        assert((a + b).drop_last() =~= a + b.drop_last());
    }
}

proof fn lemma_live_len_split(e: Seq<Slot>, i: int)
    requires
        0 <= i < e.len(),
    ensures
        live_len(e) == live_len(e.take(i)) + e[i].len + live_len(e.skip(i + 1)),
{
    assert(e =~= e.take(i).push(e[i]) + e.skip(i + 1));
    lemma_live_len_concat(e.take(i).push(e[i]), e.skip(i + 1));
    assert(e.take(i).push(e[i]).drop_last() =~= e.take(i));
}

/// Entries with distinct keys, and for each the record number of its frame.
pub struct Index {
    pub entries: Vec<Slot>,
    pub slots: Ghost<Seq<int>>,
}

impl Index {
    /// Entry `i` names the latest write of its key among `rs`.
    pub open spec fn holds(&self, rs: Seq<RecordView>, i: int) -> bool {
        let e = self.entries@[i];
        let j = self.slots@[i];
        let m = replay(rs);
        &&& 0 <= j < rs.len()
        &&& e.offset == offset_of(rs, j)
        &&& e.len == record_bytes(rs[j]).len()
        &&& m.contains_key(e.key@)
        &&& rs[j] == RecordView::Write(e.key@, m[e.key@])
    }

    /// The index describes the journal that holds the records `rs`.
    pub open spec fn valid_for(&self, rs: Seq<RecordView>) -> bool {
        let e = self.entries@;
        &&& self.slots@.len() == e.len()
        &&& forall|i: int, j: int|
            0 <= i < j < e.len() ==> (#[trigger] e[i]).key@ != (#[trigger] e[j]).key@
        &&& forall|i: int| 0 <= i < e.len() ==> #[trigger] self.holds(rs, i)
        &&& forall|k: Seq<char>|
            #[trigger] replay(rs).contains_key(k) ==> exists|i: int|
                0 <= i < e.len() && (#[trigger] e[i]).key@ == k
    }

    pub fn new() -> (r: Index)
        ensures
            r.valid_for(Seq::empty()),
            r.entries@.len() == 0,
            live_len(r.entries@) == 0,
    {
        Index { entries: Vec::new(), slots: Ghost(Seq::empty()) }
    }

    /// Position of the entry for `key`.
    pub fn find(&self, key: &String) -> (r: Option<usize>)
        ensures
            match r {
                Some(i) => i < self.entries@.len() && self.entries@[i as int].key@ == key@,
                None => forall|i: int|
                    0 <= i < self.entries@.len() ==> (#[trigger] self.entries@[i]).key@ != key@,
            },
    {
        let mut i: usize = 0;
        while i < self.entries.len()
            invariant
                i <= self.entries@.len(),
                forall|j: int| 0 <= j < i ==> (#[trigger] self.entries@[j]).key@ != key@,
            decreases self.entries@.len() - i,
        {
            if self.entries[i].key == *key {
                return Some(i);
            }
            i = i + 1;
        }
        None
    }

    /// Records a write of `key` appended at the end of the journal; gives
    /// the frame length of the write it supersedes, if any.
    pub fn put(
        &mut self,
        key: String,
        offset: usize,
        len: usize,
        Ghost(rs): Ghost<Seq<RecordView>>,
        Ghost(v): Ghost<Seq<char>>,
    ) -> (prev: Option<usize>)
        requires
            old(self).valid_for(rs),
            offset == frames(rs).len(),
            len == record_bytes(RecordView::Write(key@, v)).len(),
        ensures
            final(self).valid_for(rs.push(RecordView::Write(key@, v))),
            prev.is_some() == replay(rs).contains_key(key@),
            prev.is_some() ==> prev.unwrap() == record_bytes(
                RecordView::Write(key@, replay(rs)[key@]),
            ).len(),
            live_len(final(self).entries@) + (if prev.is_some() {
                prev.unwrap() as nat
            } else {
                0
            }) == live_len(old(self).entries@) + len,
    {
        let ghost w = RecordView::Write(key@, v);
        let ghost rs2 = rs.push(w);
        proof {
            assert(rs2.drop_last() =~= rs);
            assert(replay(rs2) == replay(rs).insert(key@, v));
            lemma_offset_push(rs, w, rs.len() as int);
            assert(rs2.take(rs.len() as int) =~= rs);
        }
        let ghost old_self = *self;
        let found = self.find(&key);
        let ghost kv = key@;
        match found {
            Some(i) => {
                let prev = self.entries[i].len;
                self.entries.set(i, Slot { key, offset, len });
                self.slots = Ghost(self.slots@.update(i as int, rs.len() as int));
                proof {
                    assert forall|a: int| 0 <= a < self.entries@.len() implies #[trigger] self.holds(
                        rs2,
                        a,
                    ) by {
                        if a != i {
                            assert(old_self.holds(rs, a));
                            lemma_offset_push(rs, w, old_self.slots@[a]);
                        }
                    }
                    assert forall|k: Seq<char>| #[trigger]
                        replay(rs2).contains_key(k) implies exists|a: int|
                        0 <= a < self.entries@.len() && (#[trigger] self.entries@[a]).key@ == k by {
                        if k == kv {
                            assert(self.entries@[i as int].key@ == k);
                        } else {
                            assert(replay(rs).contains_key(k));
                            let a = choose|a: int|
                                0 <= a < old_self.entries@.len() && (#[trigger] old_self.entries@[a]).key@
                                    == k;
                            assert(self.entries@[a].key@ == k);
                        }
                    }
                    assert(old_self.holds(rs, i as int));
                    lemma_live_len_split(old_self.entries@, i as int);
                    lemma_live_len_split(self.entries@, i as int);
                    assert(self.entries@.take(i as int) =~= old_self.entries@.take(i as int));
                    assert(self.entries@.skip(i + 1) =~= old_self.entries@.skip(i + 1));
                }
                Some(prev)
            },
            None => {
                self.entries.push(Slot { key, offset, len });
                self.slots = Ghost(self.slots@.push(rs.len() as int));
                proof {
                    let n = old_self.entries@.len() as int;
                    assert forall|a: int| 0 <= a < self.entries@.len() implies #[trigger] self.holds(
                        rs2,
                        a,
                    ) by {
                        if a != n {
                            assert(old_self.entries@[a] == self.entries@[a]);
                            assert(old_self.holds(rs, a));
                            lemma_offset_push(rs, w, old_self.slots@[a]);
                        }
                    }
                    assert forall|k: Seq<char>| #[trigger]
                        replay(rs2).contains_key(k) implies exists|a: int|
                        0 <= a < self.entries@.len() && (#[trigger] self.entries@[a]).key@ == k by {
                        if k == kv {
                            assert(self.entries@[n].key@ == k);
                        } else {
                            assert(replay(rs).contains_key(k));
                            let a = choose|a: int|
                                0 <= a < old_self.entries@.len() && (#[trigger] old_self.entries@[a]).key@
                                    == k;
                            assert(self.entries@[a].key@ == k);
                        }
                    }
                    assert forall|a: int, b: int|
                        0 <= a < b < self.entries@.len() implies (
                        #[trigger] self.entries@[a]).key@ != (#[trigger] self.entries@[b]).key@ by {
                        if b == n {
                            assert(old_self.entries@[a].key@ != kv);
                        } else {
                            assert(old_self.entries@[a] == self.entries@[a]);
                            assert(old_self.entries@[b] == self.entries@[b]);
                        }
                    }
                    if replay(rs).contains_key(kv) {
                        let a = choose|a: int|
                            0 <= a < old_self.entries@.len() && (#[trigger] old_self.entries@[a]).key@
                                == kv;
                        assert(false);
                    }
                    assert(self.entries@.drop_last() =~= old_self.entries@);
                }
                None
            },
        }
    }

    /// Records a tombstone of `key` appended at the end of the journal;
    /// gives the frame length of the write it removes, if any.
    pub fn delete(&mut self, key: &String, Ghost(rs): Ghost<Seq<RecordView>>) -> (prev: Option<
        usize,
    >)
        requires
            old(self).valid_for(rs),
        ensures
            final(self).valid_for(rs.push(RecordView::Tombstone(key@))),
            prev.is_some() == replay(rs).contains_key(key@),
            prev.is_some() ==> prev.unwrap() == record_bytes(
                RecordView::Write(key@, replay(rs)[key@]),
            ).len(),
            live_len(final(self).entries@) + (if prev.is_some() {
                prev.unwrap() as nat
            } else {
                0
            }) == live_len(old(self).entries@),
    {
        let ghost t = RecordView::Tombstone(key@);
        let ghost rs2 = rs.push(t);
        proof {
            assert(rs2.drop_last() =~= rs);
            assert(replay(rs2) == replay(rs).remove(key@));
        }
        let ghost old_self = *self;
        let ghost kv = key@;
        match self.find(key) {
            Some(i) => {
                let slot = self.entries.remove(i);
                self.slots = Ghost(self.slots@.remove(i as int));
                proof {
                    let e0 = old_self.entries@;
                    assert forall|a: int| 0 <= a < self.entries@.len() implies #[trigger] self.holds(
                        rs2,
                        a,
                    ) by {
                        let b = if a < i { a } else { a + 1 };
                        assert(self.entries@[a] == e0[b]);
                        assert(old_self.holds(rs, b));
                        assert(e0[b].key@ != kv);
                        lemma_offset_push(rs, t, old_self.slots@[b]);
                    }
                    assert forall|k: Seq<char>| #[trigger]
                        replay(rs2).contains_key(k) implies exists|a: int|
                        0 <= a < self.entries@.len() && (#[trigger] self.entries@[a]).key@ == k by {
                        assert(replay(rs).contains_key(k));
                        let b = choose|b: int| 0 <= b < e0.len() && (#[trigger] e0[b]).key@ == k;
                        let a = if b < i { b } else { b - 1 };
                        assert(self.entries@[a] == e0[if a < i { a } else { a + 1 }]);
                    }
                    assert forall|a: int, b: int|
                        0 <= a < b < self.entries@.len() implies (
                        #[trigger] self.entries@[a]).key@ != (#[trigger] self.entries@[b]).key@ by {
                        let a0 = if a < i { a } else { a + 1 };
                        let b0 = if b < i { b } else { b + 1 };
                        assert(self.entries@[a] == e0[a0]);
                        assert(self.entries@[b] == e0[b0]);
                    }
                    assert(old_self.holds(rs, i as int));
                    lemma_live_len_split(old_self.entries@, i as int);
                    assert(self.entries@ =~= old_self.entries@.take(i as int) + old_self.entries@.skip(
                        i + 1,
                    ));
                    lemma_live_len_concat(
                        old_self.entries@.take(i as int),
                        old_self.entries@.skip(i + 1),
                    );
                }
                Some(slot.len)
            },
            None => {
                proof {
                    assert forall|a: int| 0 <= a < self.entries@.len() implies #[trigger] self.holds(
                        rs2,
                        a,
                    ) by {
                        assert(old_self.holds(rs, a));
                        lemma_offset_push(rs, t, old_self.slots@[a]);
                    }
                    assert forall|k: Seq<char>| #[trigger]
                        replay(rs2).contains_key(k) implies exists|a: int|
                        0 <= a < self.entries@.len() && (#[trigger] self.entries@[a]).key@ == k by {
                        assert(replay(rs).contains_key(k));
                    }
                    if replay(rs).contains_key(kv) {
                        let a = choose|a: int|
                            0 <= a < old_self.entries@.len() && (#[trigger] old_self.entries@[a]).key@
                                == kv;
                        assert(false);
                    }
                }
                None
            },
        }
    }
}

} // verus!
