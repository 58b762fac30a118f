//! The store: an append-only journal of frames and an index over it.
use vstd::prelude::*;
use crate::codec::{
    Record, RecordView, CodecError, encode, decode, record_bytes, encodable, key_fits,
    lemma_decoded_is_encoded, push_bytes, push_range,
};
use crate::journal::{
    frames, replay, scan, offset_of, all_encodable, lemma_frames_push, lemma_decode_record,
};
use crate::index::{Index, Slot, live_len};

verus! {

/// Dead bytes below this never start a compaction.
pub const COMPACTION_MIN_DEAD_BYTES: usize = 1048576;

/// Dead bytes call for a compaction once they exceed both the minimum and
/// half of the journal.
pub open spec fn compaction_due(dead: nat, total: nat) -> bool {
    dead > COMPACTION_MIN_DEAD_BYTES && dead > total / 2
}

/// `a + b`, held at `usize::MAX`.
pub open spec fn add_capped(a: nat, b: nat) -> nat {
    if a + b <= usize::MAX {
        a + b
    } else {
        usize::MAX as nat
    }
}

/// Frame size of the write that holds `k` in `m`, or zero if `m` lacks it.
pub open spec fn live_frame_len(m: Map<Seq<char>, Seq<char>>, k: Seq<char>) -> nat {
    if m.contains_key(k) {
        record_bytes(RecordView::Write(k, m[k])).len()
    } else {
        0
    }
}

/// Why a store operation failed.
#[derive(Debug, Clone, Copy, PartialEq, Eq, Structural)]
pub enum KvsError {
    /// `remove` of a key that the store does not hold.
    KeyNotFound,
    /// The journal holds a frame that cannot be trusted.
    Corruption,
    /// A record could not be encoded.
    Codec(CodecError),
}

/// A log-structured key-value store over an in-memory image of its journal.
pub struct KvStore {
    journal: Vec<u8>,
    index: Index,
    dead: usize,
    generation: u64,
    recs: Ghost<Seq<RecordView>>,
}

impl KvStore {
    /// The records that the journal holds, in order.
    pub closed spec fn records(&self) -> Seq<RecordView> {
        self.recs@
    }

    /// The journal's bytes.
    pub closed spec fn log(&self) -> Seq<u8> {
        self.journal@
    }

    /// Changes exactly when a compaction rewrites the journal.
    pub closed spec fn generation(&self) -> u64 {
        self.generation
    }

    /// Bytes of superseded frames since the last compaction.
    pub closed spec fn dead_bytes(&self) -> nat {
        self.dead as nat
    }

    /// The index describes the journal, and the dead bytes together with
    /// the live frames fit within it.
    pub closed spec fn index_ok(&self) -> bool {
        &&& self.index.valid_for(self.recs@)
        &&& self.dead + live_len(self.index.entries@) <= self.journal@.len()
    }

    /// What the store holds: each key's latest value.
    pub open spec fn contents(&self) -> Map<Seq<char>, Seq<char>> {
        replay(self.records())
    }

    pub open spec fn wf(&self) -> bool {
        &&& self.log() == frames(self.records())
        &&& all_encodable(self.records())
        &&& self.index_ok()
    }

    /// The journal holds only live writes: one write per key, no tombstone.
    pub open spec fn is_compact(&self) -> bool {
        let rs = self.records();
        &&& forall|i: int| 0 <= i < rs.len() ==> (#[trigger] rs[i]) is Write
        &&& forall|i: int, j: int|
            0 <= i < j < rs.len() ==> (#[trigger] rs[i]).key() != (#[trigger] rs[j]).key()
    }

    fn add_dead(&mut self, n: usize)
        ensures
            final(self).journal == old(self).journal,
            final(self).index == old(self).index,
            final(self).recs == old(self).recs,
            final(self).generation == old(self).generation,
            final(self).dead_bytes() == add_capped(old(self).dead_bytes(), n as nat),
            final(self).dead_bytes() <= old(self).dead_bytes() + n,
    {
        if n <= usize::MAX - self.dead {
            self.dead = self.dead + n;
        } else {
            self.dead = usize::MAX;
        }
    }

    /// Opens a store on the bytes of its journal, replaying every frame. A
    /// frame cut short at the end is dropped and the journal truncated where
    /// the last complete frame ends; any other bad frame is corruption.
    pub fn open(bytes: Vec<u8>) -> (res: Result<KvStore, KvsError>)
        ensures
            match res {
                Ok(s) => match scan(bytes@, 0) {
                    Some((rs, e)) => s.wf() && s.records() == rs && s.log() == bytes@.take(e),
                    None => false,
                },
                Err(e) => e == KvsError::Corruption,
            },
            res is Err <==> scan(bytes@, 0) is None,
    {
        let ghost b = bytes@;
        let mut buf = bytes;
        let mut index = Index::new();
        let mut pos: usize = 0;
        let mut dead: usize = 0;
        let ghost mut recs: Seq<RecordView> = Seq::empty();
        assert(b.take(0) =~= Seq::<u8>::empty());
        assert(scan(b, 0) == match scan(b, 0) {
            Some((rs, e)) => Some((Seq::<RecordView>::empty() + rs, e)),
            None => None,
        }) by {
            if let Some((rs, e)) = scan(b, 0) {
                assert(Seq::<RecordView>::empty() + rs =~= rs);
            }
        }
        loop
            invariant
                buf@ == b,
                b == bytes@,
                pos <= b.len(),
                frames(recs) == b.take(pos as int),
                all_encodable(recs),
                index.valid_for(recs),
                dead + live_len(index.entries@) <= pos,
                scan(b, 0) == match scan(b, pos as int) {
                    Some((rs, e)) => Some((recs + rs, e)),
                    None => None,
                },
            ensures
                scan(b, 0) == Some::<(Seq<RecordView>, int)>((recs, pos as int)),
            decreases b.len() - pos,
        {
            if pos >= buf.len() {
                assert(recs + Seq::<RecordView>::empty() =~= recs);
                assert(b.take(pos as int) =~= b);
                break ;
            }
            match decode(&buf, pos) {
                Ok((r, n)) => {
                    proof {
                        lemma_decoded_is_encoded(b, pos as int);
                        lemma_frames_push(recs, r@);
                        assert(b.take(n as int) =~= b.take(pos as int) + b.subrange(
                            pos as int,
                            n as int,
                        ));
                        if let Some((rs, e)) = scan(b, n as int) {
                            assert(recs + (seq![r@] + rs) =~= recs.push(r@) + rs);
                        }
                    }
                    let len = n - pos;
                    match r {
                        Record::Write(k, v) => {
                            if let Some(prev) = index.put(k, pos, len, Ghost(recs), Ghost(v@)) {
                                dead = if prev <= usize::MAX - dead { dead + prev } else { usize::MAX };
                            }
                        },
                        Record::Tombstone(k) => {
                            let gone = index.delete(&k, Ghost(recs));
                            let extra = match gone { Some(prev) => prev, None => 0 };
                            dead = if extra <= usize::MAX - dead { dead + extra } else { usize::MAX };
                            dead = if len <= usize::MAX - dead { dead + len } else { usize::MAX };
                        },
                    }
                    proof {
                        recs = recs.push(r@);
                    }
                    pos = n;
                },
                Err(CodecError::Truncated) => {
                    assert(recs + Seq::<RecordView>::empty() =~= recs);
                    break ;
                },
                Err(_) => {
                    return Err(KvsError::Corruption);
                },
            }
        }
        buf.truncate(pos);
        Ok(KvStore { journal: buf, index, dead, generation: 0, recs: Ghost(recs) })
    }

    /// The value of `key`, read from the journal frame that the index names.
    pub fn get(&self, key: String) -> (res: Result<Option<String>, KvsError>)
        requires
            self.wf(),
        ensures
            match res {
                Ok(Some(v)) => self.contents().contains_key(key@) && v@ == self.contents()[key@],
                Ok(None) => !self.contents().contains_key(key@),
                Err(_) => false,
            },
    {
        match self.index.find(&key) {
            None => {
                proof {
                    if self.contents().contains_key(key@) {
                        let a = choose|a: int|
                            0 <= a < self.index.entries@.len() && (
                            #[trigger] self.index.entries@[a]).key@ == key@;
                    }
                }
                Ok(None)
            },
            Some(i) => {
                proof {
                    assert(self.index.holds(self.recs@, i as int));
                    lemma_decode_record(self.recs@, self.index.slots@[i as int]);
                }
                match decode(&self.journal, self.index.entries[i].offset) {
                    Ok((Record::Write(_, v), _)) => Ok(Some(v)),
                    _ => Err(KvsError::Corruption),
                }
            },
        }
    }

    /// Appends a write of `value` for `key` and points the index at it.
    pub fn set(&mut self, key: String, value: String) -> (res: Result<(), KvsError>)
        requires
            old(self).wf(),
        ensures
            final(self).wf(),
            res is Ok ==> ({
                let dead = add_capped(
                    old(self).dead_bytes(),
                    live_frame_len(old(self).contents(), key@),
                );
                let total = old(self).log().len() + record_bytes(
                    RecordView::Write(key@, value@),
                ).len();
                &&& (final(self).generation() != old(self).generation()) == compaction_due(
                    dead,
                    total,
                )
                &&& final(self).dead_bytes() == if compaction_due(dead, total) {
                    0
                } else {
                    dead
                }
                &&& compaction_due(dead, total) ==> final(self).log().len() < total
            }),
            match res {
                Ok(()) => encodable(RecordView::Write(key@, value@)) && final(self).contents()
                    == old(self).contents().insert(key@, value@) && if final(self).generation()
                    == old(self).generation() {
                    final(self).records() == old(self).records().push(
                        RecordView::Write(key@, value@),
                    )
                } else {
                    final(self).is_compact()
                },
                Err(e) => !encodable(RecordView::Write(key@, value@)) && final(self).records()
                    == old(self).records() && final(self).generation() == old(self).generation()
                    && e == KvsError::Codec(
                    if key_fits(RecordView::Write(key@, value@)) {
                        CodecError::ValueTooLarge
                    } else {
                        CodecError::KeyTooLarge
                    },
                ),
            },
    {
        let rec = Record::Write(key, value);
        let bytes = match encode(&rec) {
            Ok(b) => b,
            Err(e) => {
                return Err(KvsError::Codec(e));
            },
        };
        let ghost w = rec@;
        let ghost rs = self.recs@;
        let offset = self.journal.len();
        push_bytes(&mut self.journal, bytes.as_slice());
        let Record::Write(key, value) = rec else { return Err(KvsError::Corruption) };
        let prev = self.index.put(key, offset, bytes.len(), Ghost(rs), Ghost(value@));
        proof {
            lemma_frames_push(rs, w);
            self.recs = Ghost(rs.push(w));
            assert(rs.push(w).drop_last() =~= rs);
        }
        if let Some(p) = prev {
            self.add_dead(p);
        }
        self.maybe_compact();
        Ok(())
    }

    /// Appends a tombstone for `key` and drops it from the index; a key
    /// that the store does not hold is an error and writes nothing.
    pub fn remove(&mut self, key: String) -> (res: Result<(), KvsError>)
        requires
            old(self).wf(),
        ensures
            final(self).wf(),
            res is Ok ==> ({
                let t = record_bytes(RecordView::Tombstone(key@)).len();
                let dead = add_capped(
                    add_capped(old(self).dead_bytes(), live_frame_len(old(self).contents(), key@)),
                    t,
                );
                let total = old(self).log().len() + t;
                &&& (final(self).generation() != old(self).generation()) == compaction_due(
                    dead,
                    total,
                )
                &&& final(self).dead_bytes() == if compaction_due(dead, total) {
                    0
                } else {
                    dead
                }
                &&& compaction_due(dead, total) ==> final(self).log().len() < total
            }),
            res is Ok <==> old(self).contents().contains_key(key@),
            match res {
                Ok(()) => final(self).contents() == old(self).contents().remove(key@)
                    && if final(self).generation() == old(self).generation() {
                    final(self).records() == old(self).records().push(RecordView::Tombstone(key@))
                } else {
                    final(self).is_compact()
                },
                Err(e) => e == KvsError::KeyNotFound && final(self).records() == old(
                    self,
                ).records() && final(self).generation() == old(self).generation(),
            },
    {
        let ghost rs = self.recs@;
        let i = match self.index.find(&key) {
            Some(i) => i,
            None => {
                proof {
                    if self.contents().contains_key(key@) {
                        let a = choose|a: int|
                            0 <= a < self.index.entries@.len() && (
                            #[trigger] self.index.entries@[a]).key@ == key@;
                    }
                }
                return Err(KvsError::KeyNotFound);
            },
        };
        proof {
            let j = self.index.slots@[i as int];
            assert(self.index.holds(rs, i as int));
            assert(encodable(rs[j]));
        }
        let rec = Record::Tombstone(key);
        let bytes = match encode(&rec) {
            Ok(b) => b,
            Err(e) => {
                return Err(KvsError::Codec(e));
            },
        };
        let ghost t = rec@;
        let offset = self.journal.len();
        push_bytes(&mut self.journal, bytes.as_slice());
        let Record::Tombstone(key) = rec else { return Err(KvsError::Corruption) };
        let prev = self.index.delete(&key, Ghost(rs));
        proof {
            lemma_frames_push(rs, t);
            self.recs = Ghost(rs.push(t));
            assert(rs.push(t).drop_last() =~= rs);
        }
        if let Some(p) = prev {
            self.add_dead(p);
        }
        self.add_dead(bytes.len());
        self.maybe_compact();
        Ok(())
    }

    /// Compacts once dead bytes exceed both the minimum and half the journal.
    fn maybe_compact(&mut self)
        requires
            old(self).wf(),
        ensures
            final(self).wf(),
            final(self).contents() == old(self).contents(),
            if compaction_due(old(self).dead_bytes(), old(self).log().len()) {
                final(self).is_compact() && final(self).generation() != old(self).generation()
                    && final(self).dead_bytes() == 0 && final(self).log().len() < old(
                    self,
                ).log().len()
            } else {
                final(self).records() == old(self).records() && final(self).generation() == old(
                    self,
                ).generation() && final(self).dead_bytes() == old(self).dead_bytes()
            },
    {
        if self.dead > COMPACTION_MIN_DEAD_BYTES && self.dead > self.journal.len() / 2 {
            self.compact();
        }
    }

    /// Rewrites the journal to hold one write frame per live key.
    fn compact(&mut self)
        requires
            old(self).wf(),
        ensures
            final(self).wf(),
            final(self).contents() == old(self).contents(),
            final(self).is_compact(),
            final(self).generation() != old(self).generation(),
            final(self).dead_bytes() == 0,
            final(self).log().len() + old(self).dead_bytes() <= old(self).log().len(),
    {
        let ghost rs = self.recs@;
        let ghost m = replay(rs);
        let ghost e = self.index.entries@;
        let n = self.index.entries.len();
        let mut journal: Vec<u8> = Vec::new();
        let mut index = Index::new();
        assert(e.take(0) =~= Seq::<Slot>::empty());
        let ghost mut nrs: Seq<RecordView> = Seq::empty();
        let mut i: usize = 0;
        while i < n
            invariant
                self.wf(),
                self.recs@ == rs,
                self.index.entries@ == e,
                m == replay(rs),
                n == e.len(),
                i <= n,
                nrs.len() == i,
                journal@ == frames(nrs),
                all_encodable(nrs),
                index.valid_for(nrs),
                live_len(index.entries@) == journal@.len(),
                journal@.len() == live_len(e.take(i as int)),
                forall|a: int|
                    0 <= a < i ==> #[trigger] nrs[a] == RecordView::Write(e[a].key@, m[e[a].key@]),
                forall|k: Seq<char>|
                    #[trigger] replay(nrs).contains_key(k) ==> m.contains_key(k) && replay(nrs)[k]
                        == m[k] && exists|a: int| 0 <= a < i && (#[trigger] e[a]).key@ == k,
                forall|a: int| 0 <= a < i ==> replay(nrs).contains_key((#[trigger] e[a]).key@),
            decreases n - i,
        {
            let ghost j = self.index.slots@[i as int];
            proof {
                assert(self.index.holds(rs, i as int));
                lemma_decode_record(rs, j);
                lemma_decoded_is_encoded(frames(rs), offset_of(rs, j));
            }
            let total = self.journal.len();
            let start = self.index.entries[i].offset;
            let len = self.index.entries[i].len;
            assert(start + len <= total);
            let offset = journal.len();
            push_range(&mut journal, self.journal.as_slice(), start, start + len);
            let key = self.index.entries[i].key.clone();
            let ghost w = RecordView::Write(key@, m[key@]);
            index.put(key, offset, len, Ghost(nrs), Ghost(m[e[i as int].key@]));
            proof {
                lemma_frames_push(nrs, w);
                let old_nrs = nrs;
                nrs = nrs.push(w);
                assert(nrs.drop_last() =~= old_nrs);
                assert(replay(nrs) == replay(old_nrs).insert(e[i as int].key@, m[e[i as int].key@]));
                assert forall|k: Seq<char>| #[trigger] replay(nrs).contains_key(k) implies m.contains_key(k)
                    && replay(nrs)[k] == m[k] && exists|a: int| 0 <= a < i + 1 && (#[trigger] e[a]).key@
                    == k by {
                    if k != e[i as int].key@ {
                        assert(replay(old_nrs).contains_key(k));
                    }
                }
                assert forall|a: int| 0 <= a < i + 1 implies replay(nrs).contains_key(
                    (#[trigger] e[a]).key@,
                ) by {
                    if a < i {
                        assert(replay(old_nrs).contains_key(e[a].key@));
                    }
                }
            }
            proof {
                assert(e.take(i + 1).drop_last() =~= e.take(i as int));
            }
            i = i + 1;
        }
        proof {
            assert(e.take(n as int) =~= e);
            assert forall|k: Seq<char>| #[trigger] m.contains_key(k) implies replay(nrs).contains_key(k) by {
                let a = choose|a: int| 0 <= a < e.len() && (#[trigger] e[a]).key@ == k;
            }
            assert(replay(nrs) =~= m);
            assert forall|a: int, b: int| 0 <= a < b < nrs.len() implies (#[trigger] nrs[a]).key()
                != (#[trigger] nrs[b]).key() by {
                assert(e[a].key@ != e[b].key@);
            }
        }
        self.journal = journal;
        self.index = index;
        self.recs = Ghost(nrs);
        self.dead = 0;
        self.generation = if self.generation == u64::MAX {
            0
        } else {
            self.generation + 1
        };
    }

    /// The journal's bytes, as they are to stand on disk.
    pub fn journal(&self) -> (r: &[u8])
        ensures
            r@ == self.log(),
    {
        self.journal.as_slice()
    }

    /// Counter that changes exactly when a compaction rewrites the journal.
    pub fn generation_count(&self) -> (r: u64)
        ensures
            r == self.generation(),
    {
        self.generation
    }

    /// Bytes of superseded frames since the last compaction.
    pub fn dead_count(&self) -> (r: usize)
        ensures
            r == self.dead_bytes(),
    {
        self.dead
    }
}

/// After a write of `v` for `k`, the store holds `v` for `k`.
pub proof fn lemma_set_then_get(rs: Seq<RecordView>, k: Seq<char>, v: Seq<char>)
    ensures
        replay(rs.push(RecordView::Write(k, v))).contains_key(k),
        replay(rs.push(RecordView::Write(k, v)))[k] == v,
{
    assert(rs.push(RecordView::Write(k, v)).drop_last() =~= rs);
}

/// Two writes of one key leave the second value, and the journal then holds
/// both write frames, one after the other.
pub proof fn lemma_overwrite(rs: Seq<RecordView>, k: Seq<char>, v1: Seq<char>, v2: Seq<char>)
    ensures
        ({
            let rs2 = rs.push(RecordView::Write(k, v1)).push(RecordView::Write(k, v2));
            &&& replay(rs2).contains_key(k)
            &&& replay(rs2)[k] == v2
            &&& frames(rs2) == frames(rs) + record_bytes(RecordView::Write(k, v1)) + record_bytes(
                RecordView::Write(k, v2),
            )
        }),
{
    let rs1 = rs.push(RecordView::Write(k, v1));
    lemma_set_then_get(rs1, k, v2);
    lemma_frames_push(rs, RecordView::Write(k, v1));
    lemma_frames_push(rs1, RecordView::Write(k, v2));
}

/// A write followed by a tombstone of the same key leaves the key absent,
/// so that a second removal finds nothing.
pub proof fn lemma_set_then_remove(rs: Seq<RecordView>, k: Seq<char>, v: Seq<char>)
    ensures
        !replay(rs.push(RecordView::Write(k, v)).push(RecordView::Tombstone(k))).contains_key(k),
{
    let rs1 = rs.push(RecordView::Write(k, v));
    assert(rs1.push(RecordView::Tombstone(k)).drop_last() =~= rs1);
}

/// An empty journal opens as a store that holds no key.
pub proof fn lemma_fresh_store_empty(k: Seq<char>)
    ensures
        scan(Seq::empty(), 0) == Some::<(Seq<RecordView>, int)>((Seq::empty(), 0)),
        !replay(Seq::empty()).contains_key(k),
{
}

/// In a compacted journal every frame is the live write of its key.
pub proof fn lemma_compact_frames_live(rs: Seq<RecordView>)
    requires
        forall|i: int| 0 <= i < rs.len() ==> (#[trigger] rs[i]) is Write,
        forall|i: int, j: int|
            0 <= i < j < rs.len() ==> (#[trigger] rs[i]).key() != (#[trigger] rs[j]).key(),
    ensures
        forall|i: int|
            0 <= i < rs.len() ==> replay(rs).contains_key((#[trigger] rs[i]).key()) && rs[i]
                == RecordView::Write(rs[i].key(), replay(rs)[rs[i].key()]),
        replay(rs).dom().finite(),
        replay(rs).dom().len() == rs.len(),
    decreases rs.len(),
{
    if rs.len() == 0 {
        assert(replay(rs).dom() =~= Set::<Seq<char>>::empty());
    } else {
        let init = rs.drop_last();
        assert forall|i: int, j: int| 0 <= i < j < init.len() implies (#[trigger] init[i]).key()
            != (#[trigger] init[j]).key() by {
            assert(rs[i] == init[i] && rs[j] == init[j]);
        }
        assert forall|i: int| 0 <= i < init.len() implies (#[trigger] init[i]) is Write by {
            assert(rs[i] == init[i]);
        }
        lemma_compact_frames_live(init);
        let last = rs.last();
        assert(last is Write);
        let kl = last.key();
        assert(!replay(init).contains_key(kl)) by {
            if replay(init).contains_key(kl) {
                assert forall|i: int| 0 <= i < init.len() implies (#[trigger] init[i]).key() != kl by {
                    assert(rs[i] == init[i]);
                }
                lemma_key_comes_from_write(init, kl);
            }
        }
        assert(replay(rs).dom() =~= replay(init).dom().insert(kl));
        assert forall|i: int| 0 <= i < rs.len() implies replay(rs).contains_key(
            (#[trigger] rs[i]).key(),
        ) && rs[i] == RecordView::Write(rs[i].key(), replay(rs)[rs[i].key()]) by {
            if i < init.len() {
                assert(rs[i] == init[i]);
            }
        }
    }
}

proof fn lemma_key_comes_from_write(rs: Seq<RecordView>, k: Seq<char>)
    requires
        replay(rs).contains_key(k),
    ensures
        exists|i: int| 0 <= i < rs.len() && (#[trigger] rs[i]).key() == k,
    decreases rs.len(),
{
    if rs.len() > 0 {
        if rs.last().key() != k {
            lemma_key_comes_from_write(rs.drop_last(), k);
            let i = choose|i: int| 0 <= i < rs.drop_last().len() && (#[trigger] rs.drop_last()[i]).key() == k;
            assert(rs[i] == rs.drop_last()[i]);
        } else {
            assert(rs[rs.len() - 1].key() == k);
        }
    }
}

/// After a compaction the journal is the frames of the live writes alone:
/// one per key that the store holds, each with its current value.
pub proof fn lemma_compacted_journal(s: &KvStore)
    requires
        s.wf(),
        s.is_compact(),
    ensures
        s.log() == frames(s.records()),
        s.records().len() == s.contents().dom().len(),
        forall|i: int|
            0 <= i < s.records().len() ==> s.contents().contains_key((#[trigger] s.records()[i]).key())
                && s.records()[i] == RecordView::Write(
                s.records()[i].key(),
                s.contents()[s.records()[i].key()],
            ),
{
    lemma_compact_frames_live(s.records());
}

} // verus!
