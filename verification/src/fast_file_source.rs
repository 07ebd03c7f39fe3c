//! A memory-mapped file as the parser's byte source.
use memmap::Mmap;
use std::slice::Iter;
use vstd::prelude::*;
use vstd::std_specs::iter::IteratorSpec;

verus! {

/// `memmap::Mmap`, an immutable memory-mapped buffer. It is carried through
/// as it is; nothing is known of what it holds.
#[verifier::external_type_specification]
#[verifier::external_body]
pub struct ExMmap(memmap::Mmap);

/// `memmap::Mmap::as_ref` (the map's `AsRef<[u8]>`): the mapped range as a
/// byte slice. The bytes are those of the mapped file, so nothing is claimed
/// of them.
#[verifier::external_body]
fn as_bytes(mmap: &Mmap) -> (bytes: &[u8]) {
    mmap.as_ref()
}

/// A file as data source for the parser, held as a memory map, which reads
/// large files fastest.
pub struct FastFileSource {
    mmap: Mmap,
}

impl FastFileSource {
    /// A source over a file that has been mapped into memory.
    pub fn from_mmap(mmap: Mmap) -> (r: FastFileSource)
        ensures
            r.mapped() == mmap,
    {
        FastFileSource { mmap }
    }

    /// The map that this source reads.
    pub closed spec fn mapped(&self) -> Mmap {
        self.mmap
    }

    /// A cursor at the start of the file's bytes, which is the input for
    /// `parse`. What the bytes are is up to the file; they are few enough to
    /// be counted, and the source is left as it was.
    pub fn iter(&mut self) -> (r: Iter<'_, u8>)
        ensures
            r.remaining().len() <= usize::MAX,
            *final(self) == *old(self),
    {
        let bytes = as_bytes(&self.mmap);
        assert(bytes@.len() == bytes.len());
        bytes.iter()
    }
}

} // verus!
