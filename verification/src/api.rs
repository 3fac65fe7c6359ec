use vstd::prelude::*;

verus! {

/// Reference point of a seek, together with a signed object count.
///
/// Offsets count whole objects, never bytes. `Start` advances forward from
/// the first frame, `Current` moves relative to the cursor in the direction
/// of the sign, and `End` starts at the sentinel and always moves backward
/// by the magnitude of the offset, regardless of its sign.
#[derive(Clone, Copy, Debug, PartialEq, Eq, Structural)]
pub enum SeekFrom {
    Start(u64),
    Current(i64),
    End(i64),
}

/// Failure of a stream operation.
#[derive(Clone, Copy, Debug, PartialEq, Eq, Structural)]
pub enum ObjStrError {
    /// A seek or read ran past an edge of the stream. Recoverable: the
    /// cursor is repositioned to the nearest edge before this is returned.
    Boundary,
    /// An argument combination that cannot be satisfied: a payload too long
    /// for its 32-bit length field, content chunks requested against too
    /// small a span, or an overwrite whose bytes do not add up.
    /// Nothing is mutated.
    InvalidInput,
    /// The two length fields of a frame disagree: the on-disk invariant was
    /// already broken elsewhere. Not recoverable by this library.
    Corruption,
}

/// An object stream: a sequentially addressable store of variable-length
/// binary records, navigable forward and backward by object count. Every
/// operation preserves the implementation's own well-formedness, so a
/// stream stays usable whatever an operation returns.
pub trait ObjStr {
    /// The implementation's well-formedness, preserved by every operation.
    spec fn inv(&self) -> bool;

    /// Seeks to the given object in the stream.
    fn seek(&mut self, pos: SeekFrom) -> (r: Result<(), ObjStrError>)
        requires
            old(self).inv(),
        ensures
            final (self).inv(),
    ;

    /// Reads the object under the cursor and advances past it.
    fn read(&mut self) -> (r: Result<Vec<u8>, ObjStrError>)
        requires
            old(self).inv(),
        ensures
            final (self).inv(),
    ;

    /// Returns the combined on-disk length of the next `objs` objects,
    /// minus the header overhead that `contents` output objects would need.
    /// Does not move the cursor.
    fn len(&mut self, contents: u8, objs: u8) -> (r: Result<u64, ObjStrError>)
        requires
            old(self).inv(),
        ensures
            final (self).inv(),
    ;

    /// Replaces the next `objs` objects with the given object contents,
    /// provided the total byte count is conserved.
    fn overwrite(&mut self, data: Vec<Vec<u8>>, objs: u8) -> (r: Result<(), ObjStrError>)
        requires
            old(self).inv(),
        ensures
            final (self).inv(),
    ;

    /// Appends an object at the logical end of the stream.
    fn append(&mut self, data: Vec<u8>) -> (r: Result<(), ObjStrError>)
        requires
            old(self).inv(),
        ensures
            final (self).inv(),
    ;

    /// Deletes the object under the cursor and all following objects.
    fn cut(&mut self) -> (r: Result<(), ObjStrError>)
        requires
            old(self).inv(),
        ensures
            final (self).inv(),
    ;
}

} // verus!
