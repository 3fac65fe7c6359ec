//! The in-memory object stream: cursor navigation, span measurement and the
//! mutation operations, all over one owned byte buffer in the on-disk format.

use vstd::prelude::*;

use crate::api::ObjStr;
use crate::api::ObjStrError;
use crate::api::SeekFrom;
use crate::codec::be32_at;
use crate::codec::decode_at;
use crate::codec::encode;
use crate::codec::frame_bytes;
use crate::codec::frames_bytes;
use crate::codec::frames_size;
use crate::codec::lemma_be32_bytes_roundtrip;
use crate::codec::lemma_frame_at;
use crate::codec::lemma_frames_bytes_concat;
use crate::codec::lemma_frames_bytes_len;
use crate::codec::lemma_frames_bytes_one;
use crate::codec::lemma_offset_bounds;
use crate::codec::lemma_payload_total_push;
use crate::codec::lemma_sizes_sum_push;
use crate::codec::lemma_span_extend;
use crate::codec::lemma_span_offsets;
use crate::codec::len_calc;
use crate::codec::offset_of;
use crate::codec::payload_total;
use crate::codec::read_be32;
use crate::codec::sizes_sum;
use crate::codec::span_size;
use crate::codec::stream_bytes;
use crate::codec::valid_payload;
use crate::codec::valid_payloads;
use crate::codec::well_formed_stream;

verus! {

/// An object stream held in memory: the full backing bytes plus one cursor.
///
/// The cursor always rests at the start of some frame or on the sentinel,
/// never anywhere else; the ghost state names which frame that is.
pub struct MemObjStr {
    buf: Vec<u8>,
    pos: usize,
    objects: Ghost<Seq<Seq<u8>>>,
    idx: Ghost<int>,
}

impl MemObjStr {
    /// The payloads of the stream, in order.
    pub closed spec fn objects(&self) -> Seq<Seq<u8>> {
        self.objects@
    }

    /// The cursor as an object index; a value equal to the object count
    /// means the cursor rests on the sentinel.
    pub closed spec fn cursor(&self) -> int {
        self.idx@
    }

    /// The stream is well formed: the buffer is the exact encoding of the
    /// payloads and the cursor rests on a frame boundary or the sentinel.
    pub closed spec fn wf(&self) -> bool {
        &&& valid_payloads(self.objects@)
        &&& self.buf@ == stream_bytes(self.objects@)
        &&& 0 <= self.idx@ <= self.objects@.len()
        &&& self.pos == offset_of(self.objects@, self.idx@)
    }

    /// A fresh, empty stream: a single sentinel byte, cursor at the start.
    pub fn new() -> (s: MemObjStr)
        ensures
            s.wf(),
            s.objects() == Seq::<Seq<u8>>::empty(),
            s.cursor() == 0,
    {
        let mut buf: Vec<u8> = Vec::new();
        buf.push(0u8);
        proof {
            assert(frames_bytes(Seq::<Seq<u8>>::empty()) == Seq::<u8>::empty());
            assert(buf@ =~= stream_bytes(Seq::<Seq<u8>>::empty()));
            lemma_offset_bounds(Seq::<Seq<u8>>::empty(), 0);
        }
        MemObjStr { buf, pos: 0, objects: Ghost(Seq::empty()), idx: Ghost(0) }
    }

    /// Adopts an existing backing byte sequence as a stream, validating the
    /// whole framing on the way: every frame's two length fields and the
    /// final sentinel. Succeeds exactly on well-formed streams, with the
    /// cursor at the stream start.
    #[verifier::loop_isolation(false)]
    pub fn open(bytes: Vec<u8>) -> (r: Result<MemObjStr, ObjStrError>)
        ensures
            r is Ok <==> well_formed_stream(bytes@),
            r matches Ok(s) ==> {
                &&& s.wf()
                &&& bytes@ == stream_bytes(s.objects())
                &&& s.cursor() == 0
            },
            r matches Err(e) ==> e == ObjStrError::Corruption,
    {
        if bytes.len() == 0 {
            proof {
                // a well-formed stream always holds at least its sentinel
                if well_formed_stream(bytes@) {
                    let objs0 = choose|objs0: Seq<Seq<u8>>|
                        valid_payloads(objs0) && bytes@ == stream_bytes(objs0);
                    lemma_frames_bytes_len(objs0);
                }
            }
            return Err(ObjStrError::Corruption);
        }
        let mut p: usize = 0;
        let ghost mut parsed: Seq<Seq<u8>> = Seq::empty();
        proof {
            assert(frames_bytes(Seq::<Seq<u8>>::empty()) == Seq::<u8>::empty());
            assert(frames_size(Seq::<Seq<u8>>::empty()) == 0);
            assert(bytes@.subrange(0, 0) =~= Seq::<u8>::empty());
            assert forall|objs0: Seq<Seq<u8>>|
                valid_payloads(objs0) && bytes@ == #[trigger] stream_bytes(objs0)
                implies parsed.len() <= objs0.len() && parsed == objs0.take(
                parsed.len() as int,
            ) by {
                assert(objs0.take(0) =~= Seq::<Seq<u8>>::empty());
            }
        }
        while p < bytes.len() - 1
            invariant
                0 <= p <= bytes@.len() - 1,
                valid_payloads(parsed),
                bytes@.subrange(0, p as int) == frames_bytes(parsed),
                p == frames_size(parsed),
                forall|objs0: Seq<Seq<u8>>|
                    valid_payloads(objs0) && bytes@ == #[trigger] stream_bytes(objs0)
                        ==> parsed.len() <= objs0.len() && parsed == objs0.take(
                        parsed.len() as int,
                    ),
            decreases bytes@.len() - p,
        {
            let ghost j = parsed.len() as int;
            match decode_at(&bytes, p) {
                Ok(v) => {
                    let (data, next) = v;
                    let ghost l = be32_at(bytes@, p as int) as int;
                    proof {
                        lemma_be32_bytes_roundtrip(
                            bytes@[p as int],
                            bytes@[p as int + 1],
                            bytes@[p as int + 2],
                            bytes@[p as int + 3],
                        );
                        assert(bytes@.subrange(p as int, p + 4) =~= seq![
                            bytes@[p as int],
                            bytes@[p as int + 1],
                            bytes@[p as int + 2],
                            bytes@[p as int + 3],
                        ]);
                        lemma_be32_bytes_roundtrip(
                            bytes@[p + 4 + l],
                            bytes@[p + 5 + l],
                            bytes@[p + 6 + l],
                            bytes@[p + 7 + l],
                        );
                        assert(bytes@.subrange(p + 4 + l, p + 8 + l) =~= seq![
                            bytes@[p + 4 + l],
                            bytes@[p + 5 + l],
                            bytes@[p + 6 + l],
                            bytes@[p + 7 + l],
                        ]);
                        assert(bytes@.subrange(p as int, p + 8 + l) =~= frame_bytes(data@));
                    }
                    if next > bytes.len() - 1 {
                        proof {
                            // a frame of any decomposition ends before the sentinel
                            if well_formed_stream(bytes@) {
                                let objs0 = choose|objs0: Seq<Seq<u8>>|
                                    valid_payloads(objs0) && bytes@ == stream_bytes(objs0);
                                assert(parsed == objs0.take(parsed.len() as int));
                                lemma_frames_bytes_len(objs0);
                                if j == objs0.len() {
                                    assert(objs0.take(j) =~= objs0);
                                } else {
                                    lemma_frame_at(objs0, j);
                                }
                                assert(false);
                            }
                        }
                        return Err(ObjStrError::Corruption);
                    }
                    let ghost prev = parsed;
                    proof {
                        parsed = parsed.push(data@);
                        assert(parsed =~= prev + seq![data@]);
                        lemma_frames_bytes_concat(prev, seq![data@]);
                        lemma_frames_bytes_one(data@);
                        assert(bytes@.subrange(0, next as int) =~= frames_bytes(prev)
                            + frame_bytes(data@));
                        assert forall|objs0: Seq<Seq<u8>>|
                            valid_payloads(objs0) && bytes@ == #[trigger] stream_bytes(objs0)
                                implies parsed.len() <= objs0.len() && parsed == objs0.take(
                                parsed.len() as int,
                            ) by {
                            assert(prev == objs0.take(prev.len() as int));
                            lemma_frames_bytes_len(objs0);
                            if j == objs0.len() {
                                assert(objs0.take(j) =~= objs0);
                                assert(false);
                            }
                            lemma_frame_at(objs0, j);
                            assert(objs0.take(j + 1) =~= objs0.take(j).push(objs0[j]));
                            assert(parsed =~= objs0.take(j + 1));
                        }
                        assert(valid_payloads(parsed)) by {
                            assert(forall|t: int|
                                0 <= t < prev.len() ==> parsed[t] == #[trigger] prev[t]);
                            assert(parsed[j] == data@);
                        }
                    }
                    p = next;
                },
                Err(_) => {
                    proof {
                        // a well-formed stream never fails to decode between
                        // its start and its sentinel
                        if well_formed_stream(bytes@) {
                            let objs0 = choose|objs0: Seq<Seq<u8>>|
                                valid_payloads(objs0) && bytes@ == stream_bytes(objs0);
                            assert(parsed == objs0.take(parsed.len() as int));
                            lemma_frames_bytes_len(objs0);
                            if j == objs0.len() {
                                assert(objs0.take(j) =~= objs0);
                            } else {
                                lemma_frame_at(objs0, j);
                            }
                            assert(false);
                        }
                    }
                    return Err(ObjStrError::Corruption);
                },
            }
        }
        if bytes[p] != 0 {
            proof {
                // a well-formed stream ends in its sentinel byte
                if well_formed_stream(bytes@) {
                    let objs0 = choose|objs0: Seq<Seq<u8>>|
                        valid_payloads(objs0) && bytes@ == stream_bytes(objs0);
                    assert(parsed == objs0.take(parsed.len() as int));
                    lemma_frames_bytes_len(objs0);
                    if parsed.len() < objs0.len() {
                        lemma_frame_at(objs0, parsed.len() as int);
                    } else {
                        assert(objs0.take(parsed.len() as int) =~= objs0);
                        assert(bytes@[p as int] == 0);
                    }
                    assert(false);
                }
            }
            return Err(ObjStrError::Corruption);
        }
        proof {
            assert(bytes@ =~= stream_bytes(parsed));
            assert(well_formed_stream(bytes@)) by {
                assert(valid_payloads(parsed) && bytes@ == stream_bytes(parsed));
            }
            lemma_offset_bounds(parsed, 0);
        }
        Ok(MemObjStr { buf: bytes, pos: 0, objects: Ghost(parsed), idx: Ghost(0) })
    }

    /// Empties the stream back to the single-byte form and rewinds.
    pub fn truncate(&mut self)
        ensures
            final (self).wf(),
            final (self).objects() == Seq::<Seq<u8>>::empty(),
            final (self).cursor() == 0,
    {
        self.buf.clear();
        self.buf.push(0u8);
        self.pos = 0;
        self.objects = Ghost(Seq::empty());
        self.idx = Ghost(0);
        proof {
            assert(frames_bytes(Seq::<Seq<u8>>::empty()) == Seq::<u8>::empty());
            assert(self.buf@ =~= stream_bytes(Seq::<Seq<u8>>::empty()));
            lemma_offset_bounds(Seq::<Seq<u8>>::empty(), 0);
        }
    }

    /// The raw backing bytes, sentinel included.
    pub fn as_bytes(&self) -> (r: &Vec<u8>)
        requires
            self.wf(),
        ensures
            r@ == stream_bytes(self.objects()),
    {
        &self.buf
    }

    /// Repositions the cursor on the first frame (or the sentinel of an
    /// empty stream).
    pub fn jump_stream_start(&mut self)
        requires
            old(self).wf(),
        ensures
            final (self).wf(),
            final (self).objects() == old(self).objects(),
            final (self).cursor() == 0,
    {
        self.pos = 0;
        self.idx = Ghost(0);
        proof {
            lemma_offset_bounds(self.objects@, 0);
        }
    }

    /// Reads the payload length of the frame under the cursor without moving
    /// the cursor or touching the payload.
    pub fn inner_len(&self) -> (r: Result<u32, ObjStrError>)
        requires
            self.wf(),
        ensures
            r == if self.cursor() < self.objects().len() {
                Ok::<u32, ObjStrError>(self.objects()[self.cursor()].len() as u32)
            } else {
                Err::<u32, ObjStrError>(ObjStrError::Boundary)
            },
    {
        let ghost objs = self.objects@;
        let ghost k = self.idx@;
        proof {
            lemma_frames_bytes_len(objs);
            if k < objs.len() {
                lemma_frame_at(objs, k);
            } else {
                lemma_offset_bounds(objs, k);
            }
        }
        if self.buf.len() - self.pos < 4 {
            return Err(ObjStrError::Boundary);
        }
        Ok(read_be32(&self.buf, self.pos))
    }

    /// Advances the cursor past one frame without reading its payload.
    /// At the sentinel this is a boundary error and the cursor stays there.
    pub fn seek_forward(&mut self) -> (r: Result<(), ObjStrError>)
        requires
            old(self).wf(),
        ensures
            final (self).wf(),
            final (self).objects() == old(self).objects(),
            r == if old(self).cursor() < old(self).objects().len() {
                Ok::<(), ObjStrError>(())
            } else {
                Err::<(), ObjStrError>(ObjStrError::Boundary)
            },
            final (self).cursor() == if old(self).cursor() < old(self).objects().len() {
                old(self).cursor() + 1
            } else {
                old(self).objects().len() as int
            },
    {
        let ghost objs = self.objects@;
        let ghost k = self.idx@;
        proof {
            lemma_frames_bytes_len(objs);
            if k < objs.len() {
                lemma_frame_at(objs, k);
            } else {
                lemma_offset_bounds(objs, k);
            }
        }
        if self.buf.len() - self.pos < 4 {
            // only the sentinel remains under the cursor
            return Err(ObjStrError::Boundary);
        }
        let l = read_be32(&self.buf, self.pos);
        self.pos = self.pos + l as usize + 8;
        self.idx = Ghost(k + 1);
        Ok(())
    }

    /// Moves the cursor back past one frame, recovering its length from the
    /// trailing length field. At the stream start this is a boundary error
    /// and the cursor stays on the first frame.
    pub fn seek_backward(&mut self) -> (r: Result<(), ObjStrError>)
        requires
            old(self).wf(),
        ensures
            final (self).wf(),
            final (self).objects() == old(self).objects(),
            r == if old(self).cursor() > 0 {
                Ok::<(), ObjStrError>(())
            } else {
                Err::<(), ObjStrError>(ObjStrError::Boundary)
            },
            final (self).cursor() == if old(self).cursor() > 0 {
                old(self).cursor() - 1
            } else {
                0
            },
    {
        let ghost objs = self.objects@;
        let ghost k = self.idx@;
        proof {
            lemma_offset_bounds(objs, k);
            if k > 0 {
                lemma_frame_at(objs, k - 1);
                lemma_frames_bytes_len(objs);
            }
        }
        if self.pos < 4 {
            // already on the first frame (or the sentinel of an empty stream)
            return Err(ObjStrError::Boundary);
        }
        let l = read_be32(&self.buf, self.pos - 4);
        self.pos = self.pos - 8 - l as usize;
        self.idx = Ghost(k - 1);
        Ok(())
    }

    /// Advances the cursor past `n` frames. A step past the last frame is a
    /// boundary error that leaves the cursor on the sentinel.
    pub fn seek_forward_n(&mut self, n: u64) -> (r: Result<(), ObjStrError>)
        requires
            old(self).wf(),
        ensures
            final (self).wf(),
            final (self).objects() == old(self).objects(),
            r == if old(self).cursor() + n <= old(self).objects().len() {
                Ok::<(), ObjStrError>(())
            } else {
                Err::<(), ObjStrError>(ObjStrError::Boundary)
            },
            final (self).cursor() == if old(self).cursor() + n <= old(self).objects().len() {
                old(self).cursor() + n
            } else {
                old(self).objects().len() as int
            },
    {
        let mut i: u64 = 0;
        while i < n
            invariant
                0 <= i <= n,
                self.wf(),
                self.objects() == old(self).objects(),
                self.cursor() == old(self).cursor() + i,
                old(self).cursor() + i <= self.objects().len(),
            decreases n - i,
        {
            match self.seek_forward() {
                Ok(_) => {},
                Err(e) => {
                    return Err(e);
                },
            }
            i = i + 1;
        }
        Ok(())
    }

    /// Moves the cursor back past `n` frames. A step before the first frame
    /// is a boundary error that leaves the cursor at the stream start.
    pub fn seek_backward_n(&mut self, n: u64) -> (r: Result<(), ObjStrError>)
        requires
            old(self).wf(),
        ensures
            final (self).wf(),
            final (self).objects() == old(self).objects(),
            r == if n <= old(self).cursor() {
                Ok::<(), ObjStrError>(())
            } else {
                Err::<(), ObjStrError>(ObjStrError::Boundary)
            },
            final (self).cursor() == if n <= old(self).cursor() {
                old(self).cursor() - n
            } else {
                0
            },
    {
        let mut i: u64 = 0;
        while i < n
            invariant
                0 <= i <= n,
                self.wf(),
                self.objects() == old(self).objects(),
                self.cursor() == old(self).cursor() - i,
                i <= old(self).cursor(),
            decreases n - i,
        {
            match self.seek_backward() {
                Ok(_) => {},
                Err(e) => {
                    return Err(e);
                },
            }
            i = i + 1;
        }
        Ok(())
    }

    /// Repositions the cursor on the sentinel, one past the last frame.
    pub fn jump_stream_end(&mut self)
        requires
            old(self).wf(),
        ensures
            final (self).wf(),
            final (self).objects() == old(self).objects(),
            final (self).cursor() == old(self).objects().len(),
    {
        proof {
            lemma_frames_bytes_len(self.objects@);
            lemma_offset_bounds(self.objects@, self.objects@.len() as int);
        }
        self.pos = self.buf.len() - 1;
        self.idx = Ghost(self.objects@.len() as int);
    }
}

/// The magnitude of a signed object count.
pub open spec fn magnitude(n: i64) -> int {
    if n >= 0 {
        n as int
    } else {
        -(n as int)
    }
}

/// The magnitude of a signed object count, as an unsigned count.
fn to_magnitude(n: i64) -> (m: u64)
    ensures
        m == magnitude(n),
{
    if n >= 0 {
        n as u64
    } else if n == i64::MIN {
        9223372036854775808u64
    } else {
        (-n) as u64
    }
}

impl MemObjStr {
    /// Seeks by whole objects from the given reference point.
    ///
    /// `Start` rewinds and then advances by the offset; `Current` moves in
    /// the direction of the sign; `End` starts at the sentinel and always
    /// moves backward by the magnitude of the offset, whatever its sign.
    /// An out-of-range forward seek is a boundary error leaving the cursor
    /// on the sentinel; an out-of-range backward seek is a boundary error
    /// leaving the cursor at the stream start.
    pub fn seek(&mut self, pos: SeekFrom) -> (r: Result<(), ObjStrError>)
        requires
            old(self).wf(),
        ensures
            final (self).wf(),
            final (self).objects() == old(self).objects(),
            ({
                let len = old(self).objects().len() as int;
                let cur = old(self).cursor();
                match pos {
                    SeekFrom::Start(n) => {
                        &&& r == if n <= len {
                            Ok::<(), ObjStrError>(())
                        } else {
                            Err::<(), ObjStrError>(ObjStrError::Boundary)
                        }
                        &&& final (self).cursor() == if n <= len {
                            n as int
                        } else {
                            len
                        }
                    },
                    SeekFrom::End(n) => {
                        &&& r == if magnitude(n) <= len {
                            Ok::<(), ObjStrError>(())
                        } else {
                            Err::<(), ObjStrError>(ObjStrError::Boundary)
                        }
                        &&& final (self).cursor() == if magnitude(n) <= len {
                            len - magnitude(n)
                        } else {
                            0
                        }
                    },
                    SeekFrom::Current(n) => {
                        if n >= 0 {
                            &&& r == if cur + n <= len {
                                Ok::<(), ObjStrError>(())
                            } else {
                                Err::<(), ObjStrError>(ObjStrError::Boundary)
                            }
                            &&& final (self).cursor() == if cur + n <= len {
                                cur + n
                            } else {
                                len
                            }
                        } else {
                            &&& r == if magnitude(n) <= cur {
                                Ok::<(), ObjStrError>(())
                            } else {
                                Err::<(), ObjStrError>(ObjStrError::Boundary)
                            }
                            &&& final (self).cursor() == if magnitude(n) <= cur {
                                cur - magnitude(n)
                            } else {
                                0
                            }
                        }
                    },
                }
            }),
    {
        match pos {
            SeekFrom::Start(n) => {
                self.jump_stream_start();
                self.seek_forward_n(n)?;
            },
            SeekFrom::End(n) => {
                self.jump_stream_end();
                let m = to_magnitude(n);
                self.seek_backward_n(m)?;
            },
            SeekFrom::Current(n) => {
                if n > 0 {
                    self.seek_forward_n(n as u64)?;
                } else if n < 0 {
                    let m = to_magnitude(n);
                    self.seek_backward_n(m)?;
                }
            },
        }
        Ok(())
    }

    /// Measures the combined on-disk length of the next `objs` frames,
    /// counting both length fields of every frame, and subtracts the header
    /// overhead that `contents` output frames would need. With no content
    /// chunks the full span is returned; content chunks against too small a
    /// span (zero objects included) cannot be satisfied. Never moves the
    /// cursor.
    pub fn len(&mut self, contents: u8, objs: u8) -> (r: Result<u64, ObjStrError>)
        requires
            old(self).wf(),
        ensures
            final (self).wf(),
            final (self).objects() == old(self).objects(),
            final (self).cursor() == old(self).cursor(),
            ({
                let s = old(self).objects();
                let k = old(self).cursor();
                let n = objs as int;
                let c = contents as int;
                r == if k + n > s.len() {
                    Err::<u64, ObjStrError>(ObjStrError::Boundary)
                } else if 8 * c > span_size(s, k, n) {
                    Err::<u64, ObjStrError>(ObjStrError::InvalidInput)
                } else {
                    Ok::<u64, ObjStrError>((span_size(s, k, n) - 8 * c) as u64)
                }
            }),
    {
        let ghost s = self.objects@;
        let ghost k0 = self.idx@;
        let mut inner_lens: Vec<u32> = Vec::new();
        let mut p: usize = self.pos;
        let ghost mut k = k0;
        let mut j: u8 = 0;
        proof {
            assert(s.subrange(k0, k0) =~= Seq::<Seq<u8>>::empty());
            assert(frames_size(Seq::<Seq<u8>>::empty()) == 0);
            assert(sizes_sum(Seq::<u32>::empty()) == 0);
        }
        while j < objs
            invariant
                self.wf(),
                s == self.objects@,
                k0 == self.idx@,
                0 <= j <= objs,
                k == k0 + j,
                k <= s.len(),
                p == offset_of(s, k),
                inner_lens@.len() == j,
                sizes_sum(inner_lens@) == span_size(s, k0, j as int),
                sizes_sum(inner_lens@) <= 0x100000007 * (j as int),
            decreases objs - j,
        {
            proof {
                lemma_frames_bytes_len(s);
                if k < s.len() {
                    lemma_frame_at(s, k);
                } else {
                    lemma_offset_bounds(s, k);
                }
            }
            if self.buf.len() - p < 4 {
                // fewer frames remain than were asked for
                return Err(ObjStrError::Boundary);
            }
            let l = read_be32(&self.buf, p);
            proof {
                lemma_sizes_sum_push(inner_lens@, l);
                lemma_span_extend(s, k0, j as int);
            }
            inner_lens.push(l);
            p = p + l as usize + 8;
            proof {
                k = k + 1;
            }
            j = j + 1;
        }
        let total = len_calc(inner_lens, contents);
        if total < 0 {
            return Err(ObjStrError::InvalidInput);
        }
        Ok(total as u64)
    }

    /// Appends one object at the logical end of the stream, wherever the
    /// cursor stands: the frame overwrites the sentinel and a fresh sentinel
    /// follows it. The cursor is left at the new logical end.
    pub fn append(&mut self, data: Vec<u8>) -> (r: Result<(), ObjStrError>)
        requires
            old(self).wf(),
        ensures
            final (self).wf(),
            final (self).cursor() == final (self).objects().len(),
            valid_payload(data@) ==> r == Ok::<(), ObjStrError>(()) && final (self).objects()
                == old(self).objects().push(data@),
            !valid_payload(data@) ==> r == Err::<(), ObjStrError>(ObjStrError::InvalidInput)
                && final (self).objects() == old(self).objects(),
    {
        self.jump_stream_end();
        let frame = match encode(&data) {
            Ok(f) => f,
            Err(e) => {
                return Err(e);
            },
        };
        let ghost objs = self.objects@;
        proof {
            lemma_frames_bytes_len(objs);
        }
        // replace the sentinel with the new frame and a fresh sentinel
        let m = self.buf.len() - 1;
        self.buf.truncate(m);
        self.buf.extend_from_slice(frame.as_slice());
        self.buf.push(0u8);
        self.pos = self.buf.len() - 1;
        self.objects = Ghost(objs.push(data@));
        self.idx = Ghost(objs.len() as int + 1);
        proof {
            assert(objs.push(data@) =~= objs + seq![data@]);
            lemma_frames_bytes_concat(objs, seq![data@]);
            lemma_frames_bytes_one(data@);
            assert(self.buf@ =~= stream_bytes(objs.push(data@)));
            assert(valid_payloads(objs.push(data@))) by {
                assert(forall|i: int|
                    0 <= i < objs.len() ==> objs.push(data@)[i] == #[trigger] objs[i]);
            }
            lemma_frames_bytes_len(objs.push(data@));
            lemma_offset_bounds(objs.push(data@), objs.len() as int + 1);
        }
        Ok(())
    }

    /// Replaces the `objs` frames starting at the cursor with new frames
    /// holding `data` as payloads, without moving anything else: the byte
    /// count of the span must be conserved exactly, which is checked before
    /// any byte changes. Zero objects with no chunks is a no-op. Never moves
    /// the cursor.
    #[verifier::loop_isolation(false)]
    #[verifier::rlimit(50)]
    pub fn overwrite(&mut self, data: Vec<Vec<u8>>, objs: u8) -> (r: Result<(), ObjStrError>)
        requires
            old(self).wf(),
        ensures
            final (self).wf(),
            final (self).cursor() == old(self).cursor(),
            ({
                let s = old(self).objects();
                let k = old(self).cursor();
                let n = objs as int;
                let d = data.deep_view();
                let span = span_size(s, k, n);
                if d.len() > 255 {
                    &&& r == Err::<(), ObjStrError>(ObjStrError::InvalidInput)
                    &&& final (self).objects() == s
                } else if k + n > s.len() {
                    &&& r == Err::<(), ObjStrError>(ObjStrError::Boundary)
                    &&& final (self).objects() == s
                } else if 8 * d.len() > span {
                    &&& r == Err::<(), ObjStrError>(ObjStrError::InvalidInput)
                    &&& final (self).objects() == s
                } else if payload_total(d) != span - 8 * d.len() {
                    &&& r == Err::<(), ObjStrError>(ObjStrError::InvalidInput)
                    &&& final (self).objects() == s
                } else if !valid_payloads(d) {
                    &&& r == Err::<(), ObjStrError>(ObjStrError::InvalidInput)
                    &&& final (self).objects() == s
                } else {
                    &&& r == Ok::<(), ObjStrError>(())
                    &&& final (self).objects() == s.take(k) + d + s.skip(k + n)
                }
            }),
    {
        let ghost s = self.objects@;
        let ghost k = self.idx@;
        let ghost d = data.deep_view();
        let ghost n = objs as int;
        proof {
            assert(forall|t: int|
                0 <= t < data@.len() ==> #[trigger] d[t] =~= data@[t]@);
        }
        if data.len() > u8::MAX as usize {
            return Err(ObjStrError::InvalidInput);
        }
        let inner = match self.len(data.len() as u8, objs) {
            Ok(v) => v,
            Err(e) => {
                return Err(e);
            },
        };
        proof {
            lemma_offset_bounds(s, k);
            lemma_span_offsets(s, k, n);
            lemma_offset_bounds(s, k + n);
            lemma_frames_bytes_len(s);
            assert(self.buf.len() == self.buf@.len());
        }
        // the byte count the new chunks offer
        let mut total: u128 = 0;
        let mut i: usize = 0;
        proof {
            assert(d.take(0) =~= Seq::<Seq<u8>>::empty());
            assert(payload_total(Seq::<Seq<u8>>::empty()) == 0);
        }
        while i < data.len()
            invariant
                0 <= i <= data@.len(),
                data@.len() <= 255,
                d == data.deep_view(),
                forall|t: int| 0 <= t < data@.len() ==> #[trigger] d[t] == data@[t]@,
                total == payload_total(d.take(i as int)),
                total <= (i as int) * 0x1_0000_0000_0000_0000,
            decreases data@.len() - i,
        {
            proof {
                lemma_payload_total_push(d.take(i as int), d[i as int]);
                assert(d.take(i + 1) =~= d.take(i as int).push(d[i as int]));
            }
            total = total + data[i].len() as u128;
            i = i + 1;
        }
        proof {
            assert(d.take(d.len() as int) =~= d);
        }
        if total != inner as u128 {
            return Err(ObjStrError::InvalidInput);
        }
        // every chunk must fit its 32-bit length field
        let mut ci: usize = 0;
        while ci < data.len()
            invariant
                0 <= ci <= data@.len(),
                d == data.deep_view(),
                forall|t: int| 0 <= t < data@.len() ==> #[trigger] d[t] == data@[t]@,
                forall|t: int| 0 <= t < ci ==> valid_payload(#[trigger] d[t]),
            decreases data@.len() - ci,
        {
            if data[ci].len() > u32::MAX as usize {
                proof {
                    assert(!valid_payload(d[ci as int]));
                }
                return Err(ObjStrError::InvalidInput);
            }
            ci = ci + 1;
        }
        assert(valid_payloads(d));
        // the span is conserved: splice prefix, new frames, suffix
        let span = (inner + 8 * (data.len() as u64)) as usize;
        let end = self.pos + span;
        let mut nb: Vec<u8> = Vec::new();
        let mut bi: usize = 0;
        while bi < self.pos
            invariant
                0 <= bi <= self.pos,
                self.pos < self.buf@.len(),
                nb@ == self.buf@.subrange(0, bi as int),
            decreases self.pos - bi,
        {
            nb.push(self.buf[bi]);
            bi = bi + 1;
            assert(nb@ =~= self.buf@.subrange(0, bi as int));
        }
        let ghost prefix = self.buf@.subrange(0, self.pos as int);
        let mut cj: usize = 0;
        proof {
            assert(d.take(0) =~= Seq::<Seq<u8>>::empty());
            assert(frames_bytes(Seq::<Seq<u8>>::empty()) == Seq::<u8>::empty());
            assert(nb@ =~= prefix + frames_bytes(d.take(0)));
        }
        while cj < data.len()
            invariant
                0 <= cj <= data@.len(),
                d == data.deep_view(),
                forall|t: int| 0 <= t < data@.len() ==> #[trigger] d[t] == data@[t]@,
                valid_payloads(d),
                nb@ == prefix + frames_bytes(d.take(cj as int)),
            decreases data@.len() - cj,
        {
            match encode(&data[cj]) {
                Ok(f) => {
                    nb.extend_from_slice(f.as_slice());
                    proof {
                        assert(d.take(cj + 1) =~= d.take(cj as int) + seq![d[cj as int]]);
                        lemma_frames_bytes_concat(d.take(cj as int), seq![d[cj as int]]);
                        lemma_frames_bytes_one(d[cj as int]);
                        assert(nb@ =~= prefix + frames_bytes(d.take(cj + 1)));
                    }
                },
                Err(e) => {
                    proof {
                        assert(false);
                    }
                    return Err(e);
                },
            }
            cj = cj + 1;
        }
        proof {
            assert(d.take(d.len() as int) =~= d);
        }
        let mut si: usize = end;
        while si < self.buf.len()
            invariant
                end <= si <= self.buf@.len(),
                nb@ == prefix + frames_bytes(d) + self.buf@.subrange(end as int, si as int),
            decreases self.buf@.len() - si,
        {
            nb.push(self.buf[si]);
            si = si + 1;
            assert(nb@ =~= prefix + frames_bytes(d) + self.buf@.subrange(end as int, si as int));
        }
        let ghost s2 = s.take(k) + d + s.skip(k + n);
        self.buf = nb;
        self.objects = Ghost(s2);
        proof {
            assert(s =~= (s.take(k) + s.subrange(k, k + n)) + s.skip(k + n));
            lemma_frames_bytes_concat(s.take(k) + s.subrange(k, k + n), s.skip(k + n));
            lemma_frames_bytes_concat(s.take(k), s.subrange(k, k + n));
            lemma_frames_bytes_concat(s.take(k) + d, s.skip(k + n));
            lemma_frames_bytes_concat(s.take(k), d);
            lemma_frames_bytes_len(s.take(k));
            lemma_frames_bytes_len(s.subrange(k, k + n));
            lemma_frames_bytes_len(d);
            lemma_frames_bytes_len(s.skip(k + n));
            assert(prefix =~= frames_bytes(s.take(k)));
            assert(self.buf@ =~= stream_bytes(s2));
            assert(valid_payloads(s2)) by {
                assert(forall|t: int|
                    0 <= t < k ==> s2[t] == #[trigger] s[t]);
                assert(forall|t: int|
                    k <= t < k + d.len() ==> #[trigger] s2[t] == d[t - k]);
                assert(forall|t: int|
                    k + d.len() <= t < s2.len() ==> #[trigger] s2[t] == s[t - d.len() + n]);
            }
            assert(s2.take(k) =~= s.take(k));
        }
        Ok(())
    }

    /// Destroys the object under the cursor and everything after it: the
    /// stream is truncated at the cursor and a fresh sentinel written there.
    /// At the sentinel this removes nothing.
    pub fn cut(&mut self) -> (r: Result<(), ObjStrError>)
        requires
            old(self).wf(),
        ensures
            final (self).wf(),
            r == Ok::<(), ObjStrError>(()),
            final (self).objects() == old(self).objects().take(old(self).cursor()),
            final (self).cursor() == old(self).cursor(),
    {
        let ghost objs = self.objects@;
        let ghost k = self.idx@;
        proof {
            lemma_offset_bounds(objs, k);
            lemma_frames_bytes_len(objs);
            assert(objs =~= objs.take(k) + objs.skip(k));
            lemma_frames_bytes_concat(objs.take(k), objs.skip(k));
            lemma_frames_bytes_len(objs.take(k));
        }
        let p = self.pos;
        self.buf.truncate(p);
        self.buf.push(0u8);
        self.objects = Ghost(objs.take(k));
        proof {
            assert(self.buf@ =~= stream_bytes(objs.take(k)));
            assert(valid_payloads(objs.take(k))) by {
                assert(forall|i: int|
                    0 <= i < k ==> objs.take(k)[i] == #[trigger] objs[i]);
            }
            assert(objs.take(k).take(k) =~= objs.take(k));
        }
        Ok(())
    }

    /// Decodes the frame under the cursor and advances past it, so that
    /// consecutive reads enumerate the stream in order. At the sentinel this
    /// is a boundary error and the cursor stays there.
    pub fn read(&mut self) -> (r: Result<Vec<u8>, ObjStrError>)
        requires
            old(self).wf(),
        ensures
            final (self).wf(),
            final (self).objects() == old(self).objects(),
            old(self).cursor() < old(self).objects().len() ==> {
                &&& r matches Ok(v) && v@ == old(self).objects()[old(self).cursor()]
                &&& final (self).cursor() == old(self).cursor() + 1
            },
            old(self).cursor() == old(self).objects().len() ==> {
                &&& r == Err::<Vec<u8>, ObjStrError>(ObjStrError::Boundary)
                &&& final (self).cursor() == old(self).cursor()
            },
    {
        let ghost objs = self.objects@;
        let ghost k = self.idx@;
        proof {
            lemma_frames_bytes_len(objs);
            if k < objs.len() {
                lemma_frame_at(objs, k);
            } else {
                lemma_offset_bounds(objs, k);
            }
        }
        match decode_at(&self.buf, self.pos) {
            Ok(v) => {
                proof {
                    if k == objs.len() {
                        // no whole frame fits where only the sentinel remains
                        assert(false);
                    }
                }
                let (data, next) = v;
                self.pos = next;
                self.idx = Ghost(k + 1);
                Ok(data)
            },
            Err(e) => {
                proof {
                    if k < objs.len() {
                        // a well-formed frame never fails to decode
                        assert(false);
                    }
                }
                Err(e)
            },
        }
    }
}

impl ObjStr for MemObjStr {
    /// The stream's well-formedness is the facade's invariant.
    open spec fn inv(&self) -> bool {
        self.wf()
    }

    fn seek(&mut self, pos: SeekFrom) -> Result<(), ObjStrError> {
        MemObjStr::seek(self, pos)
    }

    fn read(&mut self) -> Result<Vec<u8>, ObjStrError> {
        MemObjStr::read(self)
    }

    fn len(&mut self, contents: u8, objs: u8) -> Result<u64, ObjStrError> {
        MemObjStr::len(self, contents, objs)
    }

    fn overwrite(&mut self, data: Vec<Vec<u8>>, objs: u8) -> Result<(), ObjStrError> {
        MemObjStr::overwrite(self, data, objs)
    }

    fn append(&mut self, data: Vec<u8>) -> Result<(), ObjStrError> {
        MemObjStr::append(self, data)
    }

    fn cut(&mut self) -> Result<(), ObjStrError> {
        MemObjStr::cut(self)
    }
}

} // verus!
