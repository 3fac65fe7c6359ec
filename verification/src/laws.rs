//! The laws of the object stream, stated over the byte-level model and
//! proved once for all inputs: round trip, ordering, span additivity,
//! re-chunk conservation, truncation shapes and directional boundary reset.

use vstd::prelude::*;

use crate::codec::frame_fits;
use crate::codec::frames_bytes;
use crate::codec::frames_size;
use crate::codec::lemma_frame_at;
use crate::codec::lemma_frames_bytes_concat;
use crate::codec::lemma_frames_bytes_len;
use crate::codec::lemma_frames_bytes_one;
use crate::codec::lemma_frames_size_total;
use crate::codec::lemma_offset_bounds;
use crate::codec::lemma_span_additive;
use crate::codec::offset_of;
use crate::codec::payload_total;
use crate::codec::span_size;
use crate::codec::stream_bytes;
use crate::codec::valid_payload;
use crate::codec::valid_payloads;

verus! {

/// Law: appending a payload and then reading at its index yields that
/// payload, for any stream and any payload. The appended payload becomes the
/// last object, and the stream bytes hold it exactly between the two length
/// fields of its frame.
pub proof fn lemma_round_trip(objs: Seq<Seq<u8>>, p: Seq<u8>)
    requires
        valid_payloads(objs),
        valid_payload(p),
    ensures
        objs.push(p)[objs.len() as int] == p,
        ({
            let grown = objs.push(p);
            let at = offset_of(grown, objs.len() as int);
            stream_bytes(grown).subrange(at + 4, at + 4 + p.len()) == p
        }),
{
    let grown = objs.push(p);
    assert(valid_payloads(grown)) by {
        assert(forall|i: int| 0 <= i < objs.len() ==> grown[i] == #[trigger] objs[i]);
    }
    lemma_frame_at(grown, objs.len() as int);
}

/// Law: reading from the start enumerates the objects in the order they were
/// appended. The frame at the `k`-th offset holds the `k`-th payload, so the
/// `k`-th consecutive read returns it.
pub proof fn lemma_ordering(objs: Seq<Seq<u8>>, k: int)
    requires
        valid_payloads(objs),
        0 <= k < objs.len(),
    ensures
        ({
            let at = offset_of(objs, k);
            stream_bytes(objs).subrange(at + 4, at + 4 + objs[k].len()) == objs[k]
        }),
{
    lemma_frame_at(objs, k);
}

/// Law: spans add. The span of `n1 + n2` frames equals the span of the first
/// `n1` plus the span of the following `n2`, and one frame's span is its
/// payload length plus its eight header bytes — so a single frame's span
/// less one chunk's header overhead is the payload length exactly.
pub proof fn lemma_span_additivity(objs: Seq<Seq<u8>>, k: int, n1: int, n2: int)
    requires
        0 <= k,
        0 <= n1,
        0 <= n2,
        k + n1 + n2 <= objs.len(),
    ensures
        span_size(objs, k, n1 + n2) == span_size(objs, k, n1) + span_size(objs, k + n1, n2),
        n1 == 1 ==> span_size(objs, k, n1) == objs[k].len() + 8,
{
    lemma_span_additive(objs, k, n1, n2);
    if n1 == 1 {
        assert(objs.subrange(k, k + 1) =~= seq![objs[k]]);
        lemma_frames_bytes_one(objs[k]);
    }
}

/// Law: re-chunking conserves bytes. Replacing `n` frames with chunks whose
/// payload bytes add up to the span less the new headers leaves the total
/// length of the stream unchanged.
pub proof fn lemma_rechunk_conservation(
    objs: Seq<Seq<u8>>,
    k: int,
    n: int,
    chunks: Seq<Seq<u8>>,
)
    requires
        0 <= k,
        0 <= n,
        k + n <= objs.len(),
        payload_total(chunks) + 8 * chunks.len() == span_size(objs, k, n),
    ensures
        stream_bytes(objs.take(k) + chunks + objs.skip(k + n)).len() == stream_bytes(objs).len(),
{
    lemma_frames_size_total(chunks);
    assert(objs =~= (objs.take(k) + objs.subrange(k, k + n)) + objs.skip(k + n));
    lemma_frames_bytes_concat(objs.take(k) + objs.subrange(k, k + n), objs.skip(k + n));
    lemma_frames_bytes_concat(objs.take(k), objs.subrange(k, k + n));
    lemma_frames_bytes_concat(objs.take(k) + chunks, objs.skip(k + n));
    lemma_frames_bytes_concat(objs.take(k), chunks);
    lemma_frames_bytes_len(objs.take(k) + chunks + objs.skip(k + n));
    lemma_frames_bytes_len(objs);
    lemma_frames_bytes_len(chunks);
}

/// Law: cutting at the first frame leaves exactly the single-byte empty
/// form, however many frames the stream held; cutting at the sentinel keeps
/// every object.
pub proof fn lemma_truncation_shapes(objs: Seq<Seq<u8>>)
    ensures
        stream_bytes(objs.take(0)) == seq![0u8],
        objs.take(objs.len() as int) == objs,
{
    assert(objs.take(0) =~= Seq::<Seq<u8>>::empty());
    assert(frames_bytes(Seq::<Seq<u8>>::empty()) == Seq::<u8>::empty());
    assert(stream_bytes(objs.take(0)) =~= seq![0u8]);
    assert(objs.take(objs.len() as int) =~= objs);
}

/// Law: directional boundary reset. A failed forward seek leaves the cursor
/// on the sentinel, where no frame fits, so the next read fails; a failed
/// backward seek leaves it at the stream start, where the first payload sits
/// ready to be read whenever the stream is not empty.
pub proof fn lemma_boundary_reset(objs: Seq<Seq<u8>>)
    requires
        valid_payloads(objs),
    ensures
        !frame_fits(stream_bytes(objs), offset_of(objs, objs.len() as int)),
        objs.len() > 0 ==> offset_of(objs, 0) == 0 && stream_bytes(objs).subrange(
            4,
            4 + objs[0].len() as int,
        ) == objs[0],
{
    lemma_frames_bytes_len(objs);
    lemma_offset_bounds(objs, objs.len() as int);
    lemma_offset_bounds(objs, 0);
    if objs.len() > 0 {
        lemma_frame_at(objs, 0);
    }
}

} // verus!
