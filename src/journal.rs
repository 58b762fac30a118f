//! The journal as a sequence of records, and the store contents it stands for.
use vstd::prelude::*;
use crate::codec::{
    RecordView, record_bytes, decode_at, declared_len, encodable, lemma_decode_encoded, CodecError,
};

verus! {

/// The bytes of a journal that holds the given records in order.
pub open spec fn frames(rs: Seq<RecordView>) -> Seq<u8>
    decreases rs.len(),
{
    if rs.len() == 0 {
        seq![]
    } else {
        frames(rs.drop_last()) + record_bytes(rs.last())
    }
}

/// Contents after replaying the records in order: each key holds the value
/// of its last write, unless a later tombstone removed it.
pub open spec fn replay(rs: Seq<RecordView>) -> Map<Seq<char>, Seq<char>>
    decreases rs.len(),
{
    if rs.len() == 0 {
        Map::empty()
    } else {
        match rs.last() {
            RecordView::Write(k, v) => replay(rs.drop_last()).insert(k, v),
            RecordView::Tombstone(k) => replay(rs.drop_last()).remove(k),
        }
    }
}

/// What recovery reads from `b` starting at `pos`: the records of the
/// complete frames and the position where the last of them ends. A frame
/// cut short by the end of the bytes ends the scan there; any other decoding
/// failure gives `None`.
pub open spec fn scan(b: Seq<u8>, pos: int) -> Option<(Seq<RecordView>, int)>
    decreases b.len() - pos,
{
    if pos < 0 || pos >= b.len() {
        Some((seq![], pos))
    } else {
        match decode_at(b, pos) {
            Ok((r, n)) => if n <= pos || n > b.len() {
                None
            } else {
                match scan(b, n) {
                    Some((rs, e)) => Some((seq![r] + rs, e)),
                    None => None,
                }
            },
            Err(CodecError::Truncated) => Some((seq![], pos)),
            Err(_) => None,
        }
    }
}

/// Byte offset at which record `j` starts.
pub open spec fn offset_of(rs: Seq<RecordView>, j: int) -> int {
    frames(rs.take(j)).len() as int
}

pub open spec fn all_encodable(rs: Seq<RecordView>) -> bool {
    forall|i: int| 0 <= i < rs.len() ==> encodable(#[trigger] rs[i])
}

pub proof fn lemma_frames_push(rs: Seq<RecordView>, r: RecordView)
    ensures
        frames(rs.push(r)) == frames(rs) + record_bytes(r),
{
    assert(rs.push(r).drop_last() =~= rs);
}

pub proof fn lemma_frames_concat(a: Seq<RecordView>, b: Seq<RecordView>)
    ensures
        frames(a + b) == frames(a) + frames(b),
    decreases b.len(),
{
    if b.len() == 0 {
        assert(a + b =~= a);
        assert(frames(b) =~= Seq::<u8>::empty());
        assert(frames(a) + frames(b) =~= frames(a));
    } else {
        lemma_frames_concat(a, b.drop_last());
        assert((a + b).drop_last() =~= a + b.drop_last());
        assert(frames(a) + frames(b) =~= frames(a) + frames(b.drop_last()) + record_bytes(b.last()));
    }
}

/// Offsets of earlier records do not move when a record is appended.
pub proof fn lemma_offset_push(rs: Seq<RecordView>, r: RecordView, j: int)
    requires
        0 <= j <= rs.len(),
    ensures
        offset_of(rs.push(r), j) == offset_of(rs, j),
        offset_of(rs, rs.len() as int) == frames(rs).len(),
{
    assert(rs.push(r).take(j) =~= rs.take(j));
    assert(rs.take(rs.len() as int) =~= rs);
}

/// Record `j` decodes from its offset in the journal.
pub proof fn lemma_decode_record(rs: Seq<RecordView>, j: int)
    requires
        0 <= j < rs.len(),
        all_encodable(rs),
    ensures
        decode_at(frames(rs), offset_of(rs, j)) == Ok::<(RecordView, int), CodecError>(
            (rs[j], offset_of(rs, j) + record_bytes(rs[j]).len()),
        ),
        offset_of(rs, j) + record_bytes(rs[j]).len() <= frames(rs).len(),
{
    let pre = rs.take(j);
    let post = rs.skip(j + 1);
    assert(rs =~= pre.push(rs[j]) + post);
    lemma_frames_concat(pre.push(rs[j]), post);
    lemma_frames_push(pre, rs[j]);
    lemma_decode_encoded(frames(pre), rs[j], frames(post));
}

/// Scanning a journal of whole frames followed by any tail reads every
/// frame, then goes on as a scan of the tail alone would.
pub proof fn lemma_scan_frames_then(rs: Seq<RecordView>, tail: Seq<u8>, j: int)
    requires
        0 <= j <= rs.len(),
        all_encodable(rs),
    ensures
        scan(frames(rs) + tail, offset_of(rs, j)) == match scan(
            frames(rs) + tail,
            frames(rs).len() as int,
        ) {
            Some((xs, e)) => Some((rs.skip(j) + xs, e)),
            None => None,
        },
    decreases rs.len() - j,
{
    let b = frames(rs) + tail;
    if j == rs.len() {
        assert(rs.take(j) =~= rs);
        if let Some((xs, e)) = scan(b, frames(rs).len() as int) {
            assert(rs.skip(j) + xs =~= xs);
        }
    } else {
        lemma_scan_frames_then(rs, tail, j + 1);
        let pre = rs.take(j);
        let post = rs.skip(j + 1);
        assert(rs =~= pre.push(rs[j]) + post);
        lemma_frames_concat(pre.push(rs[j]), post);
        lemma_frames_push(pre, rs[j]);
        assert(rs.take(j + 1) =~= pre.push(rs[j]));
        assert(b =~= frames(pre) + record_bytes(rs[j]) + (frames(post) + tail));
        lemma_decode_encoded(frames(pre), rs[j], frames(post) + tail);
        assert(record_bytes(rs[j]).len() >= 8);
        if let Some((xs, e)) = scan(b, frames(rs).len() as int) {
            assert(rs.skip(j) + xs =~= seq![rs[j]] + (rs.skip(j + 1) + xs));
        }
    }
}

/// Reopening a journal replays exactly the records that were written to it.
pub proof fn lemma_recover_written(rs: Seq<RecordView>)
    requires
        all_encodable(rs),
    ensures
        scan(frames(rs), 0) == Some::<(Seq<RecordView>, int)>((rs, frames(rs).len() as int)),
{
    let b = frames(rs) + Seq::<u8>::empty();
    assert(b =~= frames(rs));
    assert(rs.take(0) =~= Seq::<RecordView>::empty());
    lemma_scan_frames_then(rs, Seq::empty(), 0);
    assert(rs.skip(0) + Seq::<RecordView>::empty() =~= rs);
}

/// A journal whose last frame was cut short, by a crash during its append,
/// recovers to the records before that frame and ends where they end.
pub proof fn lemma_recover_cut_short(rs: Seq<RecordView>, r: RecordView, keep: int)
    requires
        all_encodable(rs),
        encodable(r),
        0 <= keep < record_bytes(r).len(),
    ensures
        scan(frames(rs) + record_bytes(r).take(keep), 0) == Some::<(Seq<RecordView>, int)>(
            (rs, frames(rs).len() as int),
        ),
{
    let tail = record_bytes(r).take(keep);
    let b = frames(rs) + tail;
    let p = frames(rs).len() as int;
    assert(rs.take(0) =~= Seq::<RecordView>::empty());
    lemma_scan_frames_then(rs, tail, 0);
    lemma_decode_encoded(frames(rs), r, Seq::empty());
    let full = frames(rs) + record_bytes(r) + Seq::<u8>::empty();
    if p < b.len() {
        if p + 8 <= b.len() {
            assert forall|i: int| p <= i < p + 8 implies b[i] == full[i] by {}
            assert(declared_len(b, p) == declared_len(full, p));
        }
        assert(decode_at(b, p) == Err::<(RecordView, int), CodecError>(CodecError::Truncated));
    }
    assert(rs.skip(0) + Seq::<RecordView>::empty() =~= rs);
}

} // verus!
