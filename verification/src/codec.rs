//! Frame codec: the binary framing format of the stream.
//!
//! A stream is `frame* sentinel`, where a frame is a 4-byte big-endian
//! length, the payload, and the same 4-byte length mirrored, and the
//! sentinel is a single zero byte that is always the last byte.

use vstd::prelude::*;

use crate::api::ObjStrError;

verus! {

/// The value of four big-endian bytes.
pub open spec fn be32_val(b0: u8, b1: u8, b2: u8, b3: u8) -> u32 {
    ((b0 as u32) << 24) | ((b1 as u32) << 16) | ((b2 as u32) << 8) | (b3 as u32)
}

/// The four big-endian bytes of a 32-bit value.
pub open spec fn be32_bytes(n: u32) -> Seq<u8> {
    seq![
        ((n >> 24) & 0xff) as u8,
        ((n >> 16) & 0xff) as u8,
        ((n >> 8) & 0xff) as u8,
        (n & 0xff) as u8,
    ]
}

/// The 32-bit value stored big-endian at offset `p` of `s`.
pub open spec fn be32_at(s: Seq<u8>, p: int) -> u32 {
    be32_val(s[p], s[p + 1], s[p + 2], s[p + 3])
}

/// Reading back the four bytes of a value yields the value.
pub proof fn lemma_be32_roundtrip(n: u32)
    ensures
        be32_val(
            ((n >> 24) & 0xff) as u8,
            ((n >> 16) & 0xff) as u8,
            ((n >> 8) & 0xff) as u8,
            (n & 0xff) as u8,
        ) == n,
{
    assert((((((n >> 24) & 0xff) as u8) as u32) << 24) | (((((n >> 16) & 0xff) as u8) as u32)
        << 16) | (((((n >> 8) & 0xff) as u8) as u32) << 8) | (((n & 0xff) as u8) as u32) == n)
        by (bit_vector);
}

/// Encoding the value of four bytes yields those bytes again.
pub proof fn lemma_be32_bytes_roundtrip(b0: u8, b1: u8, b2: u8, b3: u8)
    ensures
        be32_bytes(be32_val(b0, b1, b2, b3)) == seq![b0, b1, b2, b3],
{
    assert((((((b0 as u32) << 24) | ((b1 as u32) << 16) | ((b2 as u32) << 8) | (b3 as u32)) >> 24)
        & 0xff) as u8 == b0) by (bit_vector);
    assert((((((b0 as u32) << 24) | ((b1 as u32) << 16) | ((b2 as u32) << 8) | (b3 as u32)) >> 16)
        & 0xff) as u8 == b1) by (bit_vector);
    assert((((((b0 as u32) << 24) | ((b1 as u32) << 16) | ((b2 as u32) << 8) | (b3 as u32)) >> 8)
        & 0xff) as u8 == b2) by (bit_vector);
    assert(((((b0 as u32) << 24) | ((b1 as u32) << 16) | ((b2 as u32) << 8) | (b3 as u32)) & 0xff)
        as u8 == b3) by (bit_vector);
    assert(be32_bytes(be32_val(b0, b1, b2, b3)) =~= seq![b0, b1, b2, b3]);
}

/// If four bytes of `s` at `p` are the encoding of `n`, then `n` is read back there.
pub proof fn lemma_be32_at(s: Seq<u8>, p: int, n: u32)
    requires
        0 <= p,
        p + 4 <= s.len(),
        s.subrange(p, p + 4) == be32_bytes(n),
    ensures
        be32_at(s, p) == n,
{
    assert(s[p] == be32_bytes(n)[0]);
    assert(s[p + 1] == be32_bytes(n)[1]);
    assert(s[p + 2] == be32_bytes(n)[2]);
    assert(s[p + 3] == be32_bytes(n)[3]);
    lemma_be32_roundtrip(n);
}

/// A payload fits the 32-bit length field.
pub open spec fn valid_payload(p: Seq<u8>) -> bool {
    p.len() <= u32::MAX
}

/// Every payload of the sequence fits its length field.
pub open spec fn valid_payloads(objs: Seq<Seq<u8>>) -> bool {
    forall|i: int| 0 <= i < objs.len() ==> valid_payload(#[trigger] objs[i])
}

/// The on-disk size of one frame: payload plus two length fields.
pub open spec fn frame_size(p: Seq<u8>) -> int {
    p.len() as int + 8
}

/// The on-disk bytes of one frame: mirrored length around the payload.
pub open spec fn frame_bytes(p: Seq<u8>) -> Seq<u8> {
    be32_bytes(p.len() as u32) + p + be32_bytes(p.len() as u32)
}

/// The concatenated frames of a payload sequence, without the sentinel.
pub open spec fn frames_bytes(objs: Seq<Seq<u8>>) -> Seq<u8>
    decreases objs.len(),
{
    if objs.len() == 0 {
        Seq::empty()
    } else {
        frame_bytes(objs[0]) + frames_bytes(objs.drop_first())
    }
}

/// The combined on-disk size of a payload sequence's frames.
pub open spec fn frames_size(objs: Seq<Seq<u8>>) -> int
    decreases objs.len(),
{
    if objs.len() == 0 {
        0
    } else {
        frame_size(objs[0]) + frames_size(objs.drop_first())
    }
}

/// The full stream: all frames followed by the sentinel byte.
pub open spec fn stream_bytes(objs: Seq<Seq<u8>>) -> Seq<u8> {
    frames_bytes(objs) + seq![0u8]
}

/// The byte offset of the `k`-th frame (or of the sentinel, for `k` = count).
pub open spec fn offset_of(objs: Seq<Seq<u8>>, k: int) -> int {
    frames_size(objs.take(k))
}

/// The combined on-disk size of `n` consecutive frames starting at index `k`.
pub open spec fn span_size(objs: Seq<Seq<u8>>, k: int, n: int) -> int {
    frames_size(objs.subrange(k, k + n))
}

/// A byte sequence is a well-formed stream when it is the encoding of some
/// payload sequence.
pub open spec fn well_formed_stream(s: Seq<u8>) -> bool {
    exists|objs: Seq<Seq<u8>>| valid_payloads(objs) && s == stream_bytes(objs)
}

/// The frame bytes are as long as the frame sizes say, and every frame
/// contributes at least its eight header bytes.
pub proof fn lemma_frames_bytes_len(objs: Seq<Seq<u8>>)
    ensures
        frames_bytes(objs).len() == frames_size(objs),
        frames_size(objs) >= 8 * objs.len(),
    decreases objs.len(),
{
    if objs.len() > 0 {
        lemma_frames_bytes_len(objs.drop_first());
    }
}

/// Frame bytes distribute over concatenation of payload sequences.
pub proof fn lemma_frames_bytes_concat(a: Seq<Seq<u8>>, b: Seq<Seq<u8>>)
    ensures
        frames_bytes(a + b) == frames_bytes(a) + frames_bytes(b),
        frames_size(a + b) == frames_size(a) + frames_size(b),
    decreases a.len(),
{
    if a.len() == 0 {
        assert(a + b =~= b);
        assert(frames_bytes(a) + frames_bytes(b) =~= frames_bytes(b));
    } else {
        assert((a + b).drop_first() =~= a.drop_first() + b);
        lemma_frames_bytes_concat(a.drop_first(), b);
        assert((a + b)[0] == a[0]);
        assert(frame_bytes(a[0]) + (frames_bytes(a.drop_first()) + frames_bytes(b)) =~= (
        frame_bytes(a[0]) + frames_bytes(a.drop_first())) + frames_bytes(b));
    }
}

/// The frames of a single payload are that payload's frame.
pub proof fn lemma_frames_bytes_one(p: Seq<u8>)
    ensures
        frames_bytes(seq![p]) == frame_bytes(p),
        frames_size(seq![p]) == frame_size(p),
{
    assert(frames_bytes(Seq::<Seq<u8>>::empty()) == Seq::<u8>::empty());
    assert(frames_size(Seq::<Seq<u8>>::empty()) == 0);
    assert(seq![p].drop_first() =~= Seq::<Seq<u8>>::empty());
    assert(seq![p][0] == p);
    assert(frame_bytes(p) + Seq::<u8>::empty() =~= frame_bytes(p));
}

/// Splitting the payload sequence at frame `k` splits its bytes into the
/// bytes before the frame, the frame itself, and the bytes after it.
pub proof fn lemma_frames_decompose(objs: Seq<Seq<u8>>, k: int)
    requires
        0 <= k < objs.len(),
    ensures
        frames_bytes(objs) == frames_bytes(objs.take(k)) + frame_bytes(objs[k]) + frames_bytes(
            objs.skip(k + 1),
        ),
        offset_of(objs, k + 1) == offset_of(objs, k) + frame_size(objs[k]),
        frames_size(objs) == offset_of(objs, k) + frame_size(objs[k]) + frames_size(
            objs.skip(k + 1),
        ),
{
    assert(objs =~= (objs.take(k) + seq![objs[k]]) + objs.skip(k + 1));
    lemma_frames_bytes_concat(objs.take(k) + seq![objs[k]], objs.skip(k + 1));
    lemma_frames_bytes_concat(objs.take(k), seq![objs[k]]);
    lemma_frames_bytes_one(objs[k]);
    assert(objs.take(k + 1) =~= objs.take(k) + seq![objs[k]]);
}

/// Frame offsets are ordered: the `k`-th frame begins at or after byte 0 and
/// the whole prefix of `k` frames ends at or before the sentinel.
pub proof fn lemma_offset_bounds(objs: Seq<Seq<u8>>, k: int)
    requires
        0 <= k <= objs.len(),
    ensures
        8 * k <= offset_of(objs, k),
        offset_of(objs, k) + 8 * (objs.len() - k) <= frames_size(objs),
        k == 0 ==> offset_of(objs, k) == 0,
        k == objs.len() ==> offset_of(objs, k) == frames_size(objs),
{
    assert(objs =~= objs.take(k) + objs.skip(k));
    lemma_frames_bytes_concat(objs.take(k), objs.skip(k));
    lemma_frames_bytes_len(objs.take(k));
    lemma_frames_bytes_len(objs.skip(k));
    if k == 0 {
        assert(objs.take(0) =~= Seq::<Seq<u8>>::empty());
        assert(frames_size(Seq::<Seq<u8>>::empty()) == 0);
    }
    if k == objs.len() {
        assert(objs.skip(k) =~= Seq::<Seq<u8>>::empty());
        assert(frames_size(Seq::<Seq<u8>>::empty()) == 0);
    }
}

/// Everything the stream bytes say about frame `k`: where it lies, that its
/// two length fields both hold the payload length, and that the payload lies
/// between them.
pub proof fn lemma_frame_at(objs: Seq<Seq<u8>>, k: int)
    requires
        valid_payloads(objs),
        0 <= k < objs.len(),
    ensures
        ({
            let s = stream_bytes(objs);
            let p = offset_of(objs, k);
            let l = objs[k].len() as int;
            &&& 0 <= p
            &&& p + l + 8 <= frames_size(objs)
            &&& s.len() == frames_size(objs) + 1
            &&& s.subrange(p, p + l + 8) == frame_bytes(objs[k])
            &&& be32_at(s, p) == objs[k].len()
            &&& s.subrange(p + 4, p + 4 + l) == objs[k]
            &&& be32_at(s, p + 4 + l) == objs[k].len()
            &&& offset_of(objs, k + 1) == p + l + 8
        }),
{
    let s = stream_bytes(objs);
    let p = offset_of(objs, k);
    let l = objs[k].len() as int;
    lemma_frames_decompose(objs, k);
    lemma_offset_bounds(objs, k);
    lemma_offset_bounds(objs, k + 1);
    lemma_frames_bytes_len(objs.take(k));
    lemma_frames_bytes_len(objs);
    assert(s.subrange(p, p + l + 8) =~= frame_bytes(objs[k]));
    assert(s.subrange(p, p + 4) =~= be32_bytes(objs[k].len() as u32));
    lemma_be32_at(s, p, objs[k].len() as u32);
    assert(s.subrange(p + 4, p + 4 + l) =~= objs[k]);
    assert(s.subrange(p + 4 + l, p + 8 + l) =~= be32_bytes(objs[k].len() as u32));
    lemma_be32_at(s, p + 4 + l, objs[k].len() as u32);
}

/// A span grows by one frame's on-disk size when it takes in one more frame.
pub proof fn lemma_span_extend(objs: Seq<Seq<u8>>, k: int, n: int)
    requires
        0 <= k,
        0 <= n,
        k + n < objs.len(),
    ensures
        span_size(objs, k, n + 1) == span_size(objs, k, n) + frame_size(objs[k + n]),
{
    assert(objs.subrange(k, k + n + 1) =~= objs.subrange(k, k + n) + seq![objs[k + n]]);
    lemma_frames_bytes_concat(objs.subrange(k, k + n), seq![objs[k + n]]);
    lemma_frames_bytes_one(objs[k + n]);
}

/// Adjacent spans add: the size of `n1 + n2` frames is the size of the first
/// `n1` plus the size of the following `n2`.
pub proof fn lemma_span_additive(objs: Seq<Seq<u8>>, k: int, n1: int, n2: int)
    requires
        0 <= k,
        0 <= n1,
        0 <= n2,
        k + n1 + n2 <= objs.len(),
    ensures
        span_size(objs, k, n1 + n2) == span_size(objs, k, n1) + span_size(objs, k + n1, n2),
{
    assert(objs.subrange(k, k + n1 + n2) =~= objs.subrange(k, k + n1) + objs.subrange(
        k + n1,
        k + n1 + n2,
    ));
    lemma_frames_bytes_concat(objs.subrange(k, k + n1), objs.subrange(k + n1, k + n1 + n2));
}

/// The combined on-disk size of frames whose payload lengths are `lens`:
/// each length plus its eight header bytes.
pub open spec fn sizes_sum(lens: Seq<u32>) -> int
    decreases lens.len(),
{
    if lens.len() == 0 {
        0
    } else {
        lens[0] + 8 + sizes_sum(lens.drop_first())
    }
}

/// The size sum grows by one frame's size per recorded length.
pub proof fn lemma_sizes_sum_push(lens: Seq<u32>, l: u32)
    ensures
        sizes_sum(lens.push(l)) == sizes_sum(lens) + l + 8,
        sizes_sum(lens) >= 0,
    decreases lens.len(),
{
    if lens.len() == 0 {
        assert(sizes_sum(Seq::<u32>::empty()) == 0);
        assert(lens.push(l)[0] == l);
        assert(lens.push(l).drop_first() =~= Seq::<u32>::empty());
    } else {
        assert(lens.push(l)[0] == lens[0]);
        assert(lens.push(l).drop_first() =~= lens.drop_first().push(l));
        lemma_sizes_sum_push(lens.drop_first(), l);
    }
}

/// The combined payload byte count of a sequence of payloads, headers not
/// counted.
pub open spec fn payload_total(objs: Seq<Seq<u8>>) -> int
    decreases objs.len(),
{
    if objs.len() == 0 {
        0
    } else {
        objs[0].len() + payload_total(objs.drop_first())
    }
}

/// The payload total grows by one payload's length at a time.
pub proof fn lemma_payload_total_push(objs: Seq<Seq<u8>>, p: Seq<u8>)
    ensures
        payload_total(objs.push(p)) == payload_total(objs) + p.len(),
        payload_total(objs) >= 0,
    decreases objs.len(),
{
    if objs.len() == 0 {
        assert(payload_total(Seq::<Seq<u8>>::empty()) == 0);
        assert(objs.push(p)[0] == p);
        assert(objs.push(p).drop_first() =~= Seq::<Seq<u8>>::empty());
    } else {
        assert(objs.push(p)[0] == objs[0]);
        assert(objs.push(p).drop_first() =~= objs.drop_first().push(p));
        lemma_payload_total_push(objs.drop_first(), p);
    }
}

/// Frames occupy exactly their payload bytes plus eight header bytes each.
pub proof fn lemma_frames_size_total(objs: Seq<Seq<u8>>)
    ensures
        frames_size(objs) == payload_total(objs) + 8 * objs.len(),
    decreases objs.len(),
{
    if objs.len() > 0 {
        lemma_frames_size_total(objs.drop_first());
    }
}

/// A span's size is the distance between the offsets of its two ends.
pub proof fn lemma_span_offsets(objs: Seq<Seq<u8>>, k: int, n: int)
    requires
        0 <= k,
        0 <= n,
        k + n <= objs.len(),
    ensures
        offset_of(objs, k + n) == offset_of(objs, k) + span_size(objs, k, n),
{
    assert(objs.take(k + n) =~= objs.take(k) + objs.subrange(k, k + n));
    lemma_frames_bytes_concat(objs.take(k), objs.subrange(k, k + n));
}

/// Reads the 32-bit big-endian value at byte offset `pos` of `buf`.
pub fn read_be32(buf: &Vec<u8>, pos: usize) -> (n: u32)
    requires
        pos + 4 <= buf.len(),
    ensures
        n == be32_at(buf@, pos as int),
{
    let b0 = buf[pos];
    let b1 = buf[pos + 1];
    let b2 = buf[pos + 2];
    let b3 = buf[pos + 3];
    ((b0 as u32) << 24) | ((b1 as u32) << 16) | ((b2 as u32) << 8) | (b3 as u32)
}

/// Appends the four big-endian bytes of `n` to `buf`.
pub fn push_be32(buf: &mut Vec<u8>, n: u32)
    ensures
        final(buf)@ == old(buf)@ + be32_bytes(n),
{
    proof {
        assert((n >> 24) & 0xff < 256 && (n >> 16) & 0xff < 256 && (n >> 8) & 0xff < 256 && n
            & 0xff < 256) by (bit_vector);
    }
    buf.push(((n >> 24) & 0xff) as u8);
    buf.push(((n >> 16) & 0xff) as u8);
    buf.push(((n >> 8) & 0xff) as u8);
    buf.push((n & 0xff) as u8);
    assert(buf@ =~= old(buf)@ + be32_bytes(n));
}

/// Encodes one payload as a frame: mirrored big-endian length around the
/// payload. Rejected when the payload cannot fit the 32-bit length field.
pub fn encode(data: &Vec<u8>) -> (r: Result<Vec<u8>, ObjStrError>)
    ensures
        match r {
            Ok(f) => valid_payload(data@) && f@ == frame_bytes(data@),
            Err(e) => e == ObjStrError::InvalidInput && !valid_payload(data@),
        },
{
    if data.len() > u32::MAX as usize {
        return Err(ObjStrError::InvalidInput);
    }
    let l = data.len() as u32;
    let mut f: Vec<u8> = Vec::new();
    push_be32(&mut f, l);
    f.extend_from_slice(data.as_slice());
    push_be32(&mut f, l);
    assert(f@ =~= frame_bytes(data@));
    Ok(f)
}

/// There is room for a whole frame at offset `p`: four leading length bytes,
/// as many payload bytes as they announce, and four trailing length bytes.
pub open spec fn frame_fits(s: Seq<u8>, p: int) -> bool {
    &&& p + 4 <= s.len()
    &&& p + 8 + be32_at(s, p) <= s.len()
}

/// The two length fields of the frame at offset `p` agree.
pub open spec fn frame_mirrored(s: Seq<u8>, p: int) -> bool {
    be32_at(s, p + 4 + be32_at(s, p)) == be32_at(s, p)
}

/// Reads only the leading length field of the frame at `pos`, if there is one.
pub fn peek_length_at(buf: &Vec<u8>, pos: usize) -> (r: Result<u32, ObjStrError>)
    ensures
        r == if pos + 4 <= buf@.len() {
            Ok::<u32, ObjStrError>(be32_at(buf@, pos as int))
        } else {
            Err::<u32, ObjStrError>(ObjStrError::Boundary)
        },
{
    if buf.len() < 4 || pos > buf.len() - 4 {
        return Err(ObjStrError::Boundary);
    }
    Ok(read_be32(buf, pos))
}

/// Decodes the frame at offset `pos` of `buf`: returns the payload and the
/// offset just past the frame. Insufficient bytes are a boundary condition;
/// disagreeing length fields are corruption.
pub fn decode_at(buf: &Vec<u8>, pos: usize) -> (r: Result<(Vec<u8>, usize), ObjStrError>)
    ensures
        r is Ok <==> frame_fits(buf@, pos as int) && frame_mirrored(buf@, pos as int),
        r matches Ok(v) ==> {
            let l = be32_at(buf@, pos as int) as int;
            &&& v.0@ == buf@.subrange(pos + 4, pos + 4 + l)
            &&& v.1 == pos + 8 + l
        },
        r matches Err(e) ==> if frame_fits(buf@, pos as int) {
            e == ObjStrError::Corruption
        } else {
            e == ObjStrError::Boundary
        },
{
    if buf.len() < 4 || pos > buf.len() - 4 {
        return Err(ObjStrError::Boundary);
    }
    let n = read_be32(buf, pos);
    let l = n as usize;
    if buf.len() - pos - 4 < 4 || buf.len() - pos - 8 < l {
        return Err(ObjStrError::Boundary);
    }
    let mut data: Vec<u8> = Vec::new();
    let mut i: usize = 0;
    while i < l
        invariant
            l == be32_at(buf@, pos as int),
            pos + 8 + l <= buf.len(),
            0 <= i <= l,
            data@ == buf@.subrange(pos + 4, pos + 4 + i),
        decreases l - i,
    {
        data.push(buf[pos + 4 + i]);
        i = i + 1;
        assert(data@ =~= buf@.subrange(pos + 4, pos + 4 + i));
    }
    let m = read_be32(buf, pos + 4 + l);
    if m != n {
        return Err(ObjStrError::Corruption);
    }
    Ok((data, pos + 8 + l))
}

/// The combined length of objects whose payload lengths are `inner_lens`,
/// counting both length fields of every frame, minus the header overhead of
/// `op_sets` output frames. Negative when the overhead outweighs the span.
pub fn len_calc(inner_lens: Vec<u32>, op_sets: u8) -> (len: i64)
    requires
        sizes_sum(inner_lens@) <= i64::MAX,
    ensures
        len == sizes_sum(inner_lens@) - 8 * op_sets,
{
    let mut total: u64 = 0;
    let mut i: usize = 0;
    proof {
        lemma_sizes_sum_push(inner_lens@.take(0), 0);
        assert(inner_lens@.take(0) =~= Seq::<u32>::empty());
    }
    while i < inner_lens.len()
        invariant
            0 <= i <= inner_lens@.len(),
            total == sizes_sum(inner_lens@.take(i as int)),
            sizes_sum(inner_lens@) <= i64::MAX,
        decreases inner_lens@.len() - i,
    {
        proof {
            lemma_sizes_sum_push(inner_lens@.take(i as int), inner_lens@[i as int]);
            assert(inner_lens@.take(i + 1) =~= inner_lens@.take(i as int).push(
                inner_lens@[i as int],
            ));
            lemma_sizes_sum_prefix(inner_lens@, i + 1);
        }
        total = total + inner_lens[i] as u64 + 8;
        i = i + 1;
    }
    proof {
        assert(inner_lens@.take(inner_lens@.len() as int) =~= inner_lens@);
    }
    total as i64 - 8 * op_sets as i64
}

/// A prefix of the lengths never outweighs the whole: size sums only grow.
pub proof fn lemma_sizes_sum_prefix(lens: Seq<u32>, k: int)
    requires
        0 <= k <= lens.len(),
    ensures
        sizes_sum(lens.take(k)) <= sizes_sum(lens),
    decreases lens.len() - k,
{
    if k < lens.len() {
        lemma_sizes_sum_push(lens.take(k), lens[k]);
        assert(lens.take(k + 1) =~= lens.take(k).push(lens[k]));
        lemma_sizes_sum_prefix(lens, k + 1);
    } else {
        assert(lens.take(k) =~= lens);
    }
}

} // verus!
