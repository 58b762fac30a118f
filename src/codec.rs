//! Binary framing of journal records.
//!
//! A frame is one tag byte (`1` for a write, `2` for a tombstone), the key
//! length in three little-endian bytes, the value length in four
//! little-endian bytes, then the key bytes and the value bytes (UTF-8).
use vstd::prelude::*;
use vstd::utf8::*;

verus! {

broadcast use vstd::utf8::group_utf8_lib;

/// Tag byte of a write frame.
pub const TAG_WRITE: u8 = 1;

/// Tag byte of a tombstone frame.
pub const TAG_TOMBSTONE: u8 = 2;

/// Size of the fixed frame header.
pub const HEADER_LEN: usize = 8;

/// Largest key length that the three-byte field holds.
pub const MAX_KEY_LEN: usize = 0xff_ffff;

/// A journal record.
#[derive(Debug)]
pub enum Record {
    Write(String, String),
    Tombstone(String),
}

/// Mathematical form of a record.
pub enum RecordView {
    Write(Seq<char>, Seq<char>),
    Tombstone(Seq<char>),
}

impl View for Record {
    type V = RecordView;

    open spec fn view(&self) -> RecordView {
        match self {
            Record::Write(k, v) => RecordView::Write(k@, v@),
            Record::Tombstone(k) => RecordView::Tombstone(k@),
        }
    }
}

impl Record {
    /// The key that the record writes or removes.
    pub fn key(self) -> (r: String)
        ensures
            r@ == self@.key(),
    {
        match self {
            Record::Write(key, _) => key,
            Record::Tombstone(key) => key,
        }
    }
}

/// Why a frame could not be encoded or decoded.
#[derive(Debug, Clone, Copy, PartialEq, Eq, Structural)]
pub enum CodecError {
    Truncated,
    InvalidTag,
    InvalidUtf8,
    KeyTooLarge,
    ValueTooLarge,
}

impl RecordView {
    pub open spec fn key(self) -> Seq<char> {
        match self {
            RecordView::Write(k, _) => k,
            RecordView::Tombstone(k) => k,
        }
    }
}

pub open spec fn le24_bytes(n: u32) -> Seq<u8> {
    seq![(n & 0xff) as u8, ((n >> 8u32) & 0xff) as u8, ((n >> 16u32) & 0xff) as u8]
}

pub open spec fn le32_bytes(n: u32) -> Seq<u8> {
    seq![
        (n & 0xff) as u8,
        ((n >> 8u32) & 0xff) as u8,
        ((n >> 16u32) & 0xff) as u8,
        ((n >> 24u32) & 0xff) as u8,
    ]
}

pub open spec fn le24_value(b0: u8, b1: u8, b2: u8) -> u32 {
    (b0 as u32) | ((b1 as u32) << 8u32) | ((b2 as u32) << 16u32)
}

pub open spec fn le32_value(b0: u8, b1: u8, b2: u8, b3: u8) -> u32 {
    (b0 as u32) | ((b1 as u32) << 8u32) | ((b2 as u32) << 16u32) | ((b3 as u32) << 24u32)
}

/// The frame with the given tag, key bytes and value bytes.
pub open spec fn frame(tag: u8, k: Seq<u8>, v: Seq<u8>) -> Seq<u8> {
    seq![tag] + le24_bytes(k.len() as u32) + le32_bytes(v.len() as u32) + k + v
}

/// The bytes that encode a record.
pub open spec fn record_bytes(r: RecordView) -> Seq<u8> {
    match r {
        RecordView::Write(k, v) => frame(TAG_WRITE, encode_utf8(k), encode_utf8(v)),
        RecordView::Tombstone(k) => frame(TAG_TOMBSTONE, encode_utf8(k), seq![]),
    }
}

/// The key's length fits in three bytes and the value's in four.
pub open spec fn key_fits(r: RecordView) -> bool {
    encode_utf8(r.key()).len() <= MAX_KEY_LEN
}

pub open spec fn value_fits(r: RecordView) -> bool {
    match r {
        RecordView::Write(_, v) => encode_utf8(v).len() <= u32::MAX,
        RecordView::Tombstone(_) => true,
    }
}

pub open spec fn encodable(r: RecordView) -> bool {
    key_fits(r) && value_fits(r)
}

/// Length of the frame that starts at `pos`, as its header declares.
pub open spec fn declared_len(b: Seq<u8>, pos: int) -> int {
    HEADER_LEN + le24_value(b[pos + 1], b[pos + 2], b[pos + 3]) as int + le32_value(
        b[pos + 4],
        b[pos + 5],
        b[pos + 6],
        b[pos + 7],
    ) as int
}

/// What decoding one frame at `pos` of `b` gives: the record and the
/// position just past the frame.
pub open spec fn decode_at(b: Seq<u8>, pos: int) -> Result<(RecordView, int), CodecError> {
    if pos < 0 || pos + HEADER_LEN > b.len() {
        Err(CodecError::Truncated)
    } else if b[pos] != TAG_WRITE && b[pos] != TAG_TOMBSTONE {
        Err(CodecError::InvalidTag)
    } else if pos + declared_len(b, pos) > b.len() {
        Err(CodecError::Truncated)
    } else {
        let kl = le24_value(b[pos + 1], b[pos + 2], b[pos + 3]) as int;
        let end = pos + declared_len(b, pos);
        let kb = b.subrange(pos + HEADER_LEN, pos + HEADER_LEN + kl);
        let vb = b.subrange(pos + HEADER_LEN + kl, end);
        if !valid_utf8(kb) {
            Err(CodecError::InvalidUtf8)
        } else if b[pos] == TAG_WRITE {
            if !valid_utf8(vb) {
                Err(CodecError::InvalidUtf8)
            } else {
                Ok((RecordView::Write(decode_utf8(kb), decode_utf8(vb)), end))
            }
        } else if vb.len() != 0 {
            Err(CodecError::InvalidTag)
        } else {
            Ok((RecordView::Tombstone(decode_utf8(kb)), end))
        }
    }
}

proof fn lemma_le24(n: u32)
    requires
        n <= 0xff_ffff,
    ensures
        le24_value(le24_bytes(n)[0], le24_bytes(n)[1], le24_bytes(n)[2]) == n,
{
    let b0 = (n & 0xff) as u8;
    let b1 = ((n >> 8u32) & 0xff) as u8;
    let b2 = ((n >> 16u32) & 0xff) as u8;
    assert((b0 as u32) | ((b1 as u32) << 8u32) | ((b2 as u32) << 16u32) == n) by (bit_vector)
        requires
            n <= 0xff_ffff,
            b0 == (n & 0xff) as u8,
            b1 == ((n >> 8u32) & 0xff) as u8,
            b2 == ((n >> 16u32) & 0xff) as u8,
    ;
}

proof fn lemma_le32(n: u32)
    ensures
        le32_value(le32_bytes(n)[0], le32_bytes(n)[1], le32_bytes(n)[2], le32_bytes(n)[3]) == n,
{
    let b0 = (n & 0xff) as u8;
    let b1 = ((n >> 8u32) & 0xff) as u8;
    let b2 = ((n >> 16u32) & 0xff) as u8;
    let b3 = ((n >> 24u32) & 0xff) as u8;
    assert((b0 as u32) | ((b1 as u32) << 8u32) | ((b2 as u32) << 16u32) | ((b3 as u32) << 24u32)
        == n) by (bit_vector)
        requires
            b0 == (n & 0xff) as u8,
            b1 == ((n >> 8u32) & 0xff) as u8,
            b2 == ((n >> 16u32) & 0xff) as u8,
            b3 == ((n >> 24u32) & 0xff) as u8,
    ;
}

/// Decoding the bytes of an encodable record, wherever they stand in a
/// buffer, gives that record back and the position just past it.
pub proof fn lemma_decode_encoded(pre: Seq<u8>, r: RecordView, post: Seq<u8>)
    requires
        encodable(r),
    ensures
        decode_at(pre + record_bytes(r) + post, pre.len() as int) == Ok::<(RecordView, int), CodecError>(
            (r, pre.len() + record_bytes(r).len() as int),
        ),
{
    let b = pre + record_bytes(r) + post;
    let p = pre.len() as int;
    let kb = encode_utf8(r.key());
    let vb = match r {
        RecordView::Write(_, v) => encode_utf8(v),
        RecordView::Tombstone(_) => seq![],
    };
    let tag = match r {
        RecordView::Write(_, _) => TAG_WRITE,
        RecordView::Tombstone(_) => TAG_TOMBSTONE,
    };
    let h24 = le24_bytes(kb.len() as u32);
    let h32 = le32_bytes(vb.len() as u32);
    assert(record_bytes(r) == frame(tag, kb, vb));
    lemma_le24(kb.len() as u32);
    lemma_le32(vb.len() as u32);
    assert(b[p] == tag);
    assert(b[p + 1] == h24[0]);
    assert(b[p + 2] == h24[1]);
    assert(b[p + 3] == h24[2]);
    assert(b[p + 4] == h32[0]);
    assert(b[p + 5] == h32[1]);
    assert(b[p + 6] == h32[2]);
    assert(b[p + 7] == h32[3]);
    assert(declared_len(b, p) == 8 + kb.len() + vb.len());
    assert(b.subrange(p + 8, p + 8 + kb.len()) =~= kb);
    assert(b.subrange(p + 8 + kb.len(), p + 8 + kb.len() + vb.len()) =~= vb);
    assert(valid_utf8(Seq::<u8>::empty()));
}

proof fn lemma_le_bytes_back(b0: u8, b1: u8, b2: u8, b3: u8)
    ensures
        le24_value(b0, b1, b2) <= 0xff_ffff,
        le24_bytes(le24_value(b0, b1, b2)) == seq![b0, b1, b2],
        le32_bytes(le32_value(b0, b1, b2, b3)) == seq![b0, b1, b2, b3],
{
    let n = le24_value(b0, b1, b2);
    let m = le32_value(b0, b1, b2, b3);
    assert(n <= 0xff_ffff && (n & 0xff) as u8 == b0 && ((n >> 8u32) & 0xff) as u8 == b1 && ((n
        >> 16u32) & 0xff) as u8 == b2) by (bit_vector)
        requires
            n == (b0 as u32) | ((b1 as u32) << 8u32) | ((b2 as u32) << 16u32),
    ;
    assert((m & 0xff) as u8 == b0 && ((m >> 8u32) & 0xff) as u8 == b1 && ((m >> 16u32) & 0xff) as u8
        == b2 && ((m >> 24u32) & 0xff) as u8 == b3) by (bit_vector)
        requires
            m == (b0 as u32) | ((b1 as u32) << 8u32) | ((b2 as u32) << 16u32) | ((b3 as u32)
                << 24u32),
    ;
    assert(le24_bytes(n) =~= seq![b0, b1, b2]);
    assert(le32_bytes(m) =~= seq![b0, b1, b2, b3]);
}

/// A frame that decodes is exactly the encoding of the record it gives.
pub proof fn lemma_decoded_is_encoded(b: Seq<u8>, pos: int)
    requires
        decode_at(b, pos) is Ok,
    ensures
        ({
            let (r, n) = decode_at(b, pos)->Ok_0;
            &&& encodable(r)
            &&& pos < n <= b.len()
            &&& b.subrange(pos, n) == record_bytes(r)
        }),
{
    let (r, n) = decode_at(b, pos)->Ok_0;
    lemma_le_bytes_back(b[pos + 1], b[pos + 2], b[pos + 3], b[pos + 4]);
    lemma_le_bytes_back(b[pos + 4], b[pos + 5], b[pos + 6], b[pos + 7]);
    let kl = le24_value(b[pos + 1], b[pos + 2], b[pos + 3]) as int;
    let kb = b.subrange(pos + HEADER_LEN, pos + HEADER_LEN + kl);
    let vb = b.subrange(pos + HEADER_LEN + kl, n);
    decode_utf8_encode_utf8(kb);
    if b[pos] == TAG_WRITE {
        decode_utf8_encode_utf8(vb);
    }
    assert(b.subrange(pos, n) =~= record_bytes(r));
}

/// Decoding a frame that encoding produced gives the record back.
pub proof fn lemma_round_trip(r: RecordView)
    requires
        encodable(r),
    ensures
        decode_at(record_bytes(r), 0) == Ok::<(RecordView, int), CodecError>(
            (r, record_bytes(r).len() as int),
        ),
{
    lemma_decode_encoded(seq![], r, seq![]);
    assert(Seq::<u8>::empty() + record_bytes(r) + Seq::<u8>::empty() =~= record_bytes(r));
}


/// Relies on String::from_utf8: it succeeds exactly on valid UTF-8, and the
/// string holds the characters that the bytes encode.
#[verifier::external_body]
fn string_from_utf8(b: Vec<u8>) -> (r: Option<String>)
    ensures
        r.is_some() <==> valid_utf8(b@),
        r.is_some() ==> r.unwrap()@ == decode_utf8(b@),
{
    String::from_utf8(b).ok()
}

/// Appends every byte of `b` to `out`.
pub fn push_bytes(out: &mut Vec<u8>, b: &[u8])
    ensures
        final(out)@ == old(out)@ + b@,
{
    let mut i: usize = 0;
    while i < b.len()
        invariant
            i <= b@.len(),
            out@ == old(out)@ + b@.subrange(0, i as int),
        decreases b@.len() - i,
    {
        out.push(b[i]);
        i = i + 1;
        assert(b@.subrange(0, i as int) =~= b@.subrange(0, i - 1) + seq![b@[i - 1]]);
    }
    assert(b@.subrange(0, i as int) =~= b@);
}

/// Appends the bytes of `buf` from `start` up to `end` to `out`.
pub fn push_range(out: &mut Vec<u8>, buf: &[u8], start: usize, end: usize)
    requires
        start <= end <= buf@.len(),
    ensures
        final(out)@ == old(out)@ + buf@.subrange(start as int, end as int),
{
    let mut i: usize = start;
    while i < end
        invariant
            start <= i <= end,
            end <= buf@.len(),
            out@ == old(out)@ + buf@.subrange(start as int, i as int),
        decreases end - i,
    {
        out.push(buf[i]);
        i = i + 1;
        assert(buf@.subrange(start as int, i as int) =~= buf@.subrange(start as int, i - 1) + seq![
            buf@[i - 1],
        ]);
    }
}

fn copy_range(buf: &[u8], start: usize, end: usize) -> (r: Vec<u8>)
    requires
        start <= end <= buf@.len(),
    ensures
        r@ == buf@.subrange(start as int, end as int),
{
    let mut out: Vec<u8> = Vec::new();
    push_range(&mut out, buf, start, end);
    assert(out@ =~= buf@.subrange(start as int, end as int));
    out
}

/// Encodes a record as one frame.
pub fn encode(r: &Record) -> (res: Result<Vec<u8>, CodecError>)
    ensures
        match res {
            Ok(b) => encodable(r@) && b@ == record_bytes(r@),
            Err(e) => !encodable(r@) && (e == CodecError::KeyTooLarge <==> !key_fits(r@)) && (e
                == CodecError::ValueTooLarge <==> key_fits(r@) && !value_fits(r@)),
        },
{
    let (tag, key, value): (u8, &str, &str) = match r {
        Record::Write(k, v) => (TAG_WRITE, k.as_str(), v.as_str()),
        Record::Tombstone(k) => (TAG_TOMBSTONE, k.as_str(), ""),
    };
    proof {
        reveal_strlit("");
    }
    let kb = key.as_bytes();
    let vb = value.as_bytes();
    assert(kb@ == encode_utf8(r@.key()));
    assert(vb@ == match r@ {
        RecordView::Write(_, v) => encode_utf8(v),
        RecordView::Tombstone(_) => Seq::<u8>::empty(),
    });
    if kb.len() > MAX_KEY_LEN {
        return Err(CodecError::KeyTooLarge);
    }
    if vb.len() > 0xffff_ffff {
        return Err(CodecError::ValueTooLarge);
    }
    let kl = kb.len() as u32;
    let vl = vb.len() as u32;
    let mut out: Vec<u8> = Vec::new();
    out.push(tag);
    out.push((kl & 0xff) as u8);
    out.push(((kl >> 8u32) & 0xff) as u8);
    out.push(((kl >> 16u32) & 0xff) as u8);
    out.push((vl & 0xff) as u8);
    out.push(((vl >> 8u32) & 0xff) as u8);
    out.push(((vl >> 16u32) & 0xff) as u8);
    out.push(((vl >> 24u32) & 0xff) as u8);
    assert(out@ =~= seq![tag] + le24_bytes(kl) + le32_bytes(vl));
    push_bytes(&mut out, kb);
    push_bytes(&mut out, vb);
    assert(out@ =~= frame(tag, kb@, vb@));
    Ok(out)
}

/// Decodes the frame that starts at `pos` of `buf`, giving the record and
/// the position just past the frame.
pub fn decode(buf: &[u8], pos: usize) -> (res: Result<(Record, usize), CodecError>)
    ensures
        match res {
            Ok((r, n)) => decode_at(buf@, pos as int) == Ok::<(RecordView, int), CodecError>(
                (r@, n as int),
            ),
            Err(e) => decode_at(buf@, pos as int) == Err::<(RecordView, int), CodecError>(e),
        },
{
    let len = buf.len();
    if len < HEADER_LEN || pos > len - HEADER_LEN {
        return Err(CodecError::Truncated);
    }
    let tag = buf[pos];
    if tag != TAG_WRITE && tag != TAG_TOMBSTONE {
        return Err(CodecError::InvalidTag);
    }
    let kl = (buf[pos + 1] as u32) | ((buf[pos + 2] as u32) << 8u32) | ((buf[pos + 3] as u32)
        << 16u32);
    let vl = (buf[pos + 4] as u32) | ((buf[pos + 5] as u32) << 8u32) | ((buf[pos + 6] as u32)
        << 16u32) | ((buf[pos + 7] as u32) << 24u32);
    let start = pos + HEADER_LEN;
    let room = len - start;
    if kl as usize > room || vl as usize > room - kl as usize {
        return Err(CodecError::Truncated);
    }
    let kend = start + kl as usize;
    let end = kend + vl as usize;
    let kbytes = copy_range(buf, start, kend);
    let key = match string_from_utf8(kbytes) {
        Some(k) => k,
        None => {
            return Err(CodecError::InvalidUtf8);
        },
    };
    if tag == TAG_WRITE {
        let vbytes = copy_range(buf, kend, end);
        match string_from_utf8(vbytes) {
            Some(v) => Ok((Record::Write(key, v), end)),
            None => Err(CodecError::InvalidUtf8),
        }
    } else if vl != 0 {
        Err(CodecError::InvalidTag)
    } else {
        Ok((Record::Tombstone(key), end))
    }
}

} // verus!
