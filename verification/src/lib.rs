//! An object stream: a sequentially addressable, byte-backed store of
//! variable-length binary records, navigable forward and backward by object
//! count with no external index. Every record carries its length on both
//! sides — `[len:4][payload][len:4]`, big-endian and mirrored — and a single
//! zero sentinel byte always ends the stream, which is what makes backward
//! traversal and end-relative seeks possible.
//!
//! `codec` holds the framing format and its model, `stream` the in-memory
//! stream with the verified operation set, `api` the operation interface and
//! error taxonomy, and `laws` the properties proved of the whole: round
//! trip, ordering, span additivity, re-chunk conservation, truncation shapes
//! and directional boundary reset.

pub mod api;
pub mod codec;
pub mod laws;
pub mod stream;
