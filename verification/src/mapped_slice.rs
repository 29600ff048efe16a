//! Slices of a memory-mapped file that keep the mapping alive.

use crate::process::share;
use memmap::Mmap;
use std::sync::Arc;
use vstd::prelude::*;

verus! {

/// `memmap::Mmap`: a file mapped into memory for reading. What the bytes of a
/// mapping are is up to the file at the moment they are read.
#[verifier::external_type_specification]
#[verifier::external_body]
pub struct ExMmap(memmap::Mmap);

/// The number of bytes that a mapping was made with.
pub uninterp spec fn mapping_len(map: Mmap) -> usize;

/// `Deref::deref` of a mapping, for its length: the number of bytes mapped.
#[verifier::external_body]
fn map_len(map: &Mmap) -> (len: usize)
    ensures
        len == mapping_len(*map),
{
    map.len()
}

/// `Deref::deref` of a mapping, and a range of the bytes it gives.
#[verifier::external_body]
fn map_bytes(map: &Mmap, start: usize, end: usize) -> (bytes: &[u8])
    requires
        start <= end <= mapping_len(*map),
    ensures
        bytes@.len() == end - start,
{
    &map[start..end]
}

/// Slice of data from a mapped file
#[derive(Debug)]
pub struct MappedSlice {
    mapping: Arc<Mmap>,
    start: usize,
    end: usize,
}

impl MappedSlice {
    #[verifier::type_invariant]
    spec fn in_mapping(self) -> bool {
        self.start <= self.end <= mapping_len(*self.mapping)
    }

    /// Where in the mapping the slice starts.
    pub closed spec fn offset(&self) -> usize {
        self.start
    }

    /// The number of bytes of the slice.
    pub closed spec fn spec_len(&self) -> nat {
        (self.end - self.start) as nat
    }

    /// The number of bytes of the mapping that the slice is taken from.
    pub closed spec fn whole(&self) -> usize {
        mapping_len(*self.mapping)
    }

    /// The slice that spans the whole mapping.
    pub fn new(map: Mmap) -> (slice: MappedSlice)
        ensures
            slice.offset() == 0,
            slice.spec_len() == mapping_len(map),
            slice.whole() == mapping_len(map),
    {
        let end = map_len(&map);
        MappedSlice { start: 0, end, mapping: Arc::new(map) }
    }

    /// The number of bytes of the slice.
    pub fn len(&self) -> (len: usize)
        ensures
            len == self.spec_len(),
            self.offset() + len <= self.whole(),
    {
        proof {
            use_type_invariant(self);
        }
        self.end - self.start
    }

    /// The bytes of the slice.
    pub fn bytes(&self) -> (bytes: &[u8])
        ensures
            bytes@.len() == self.spec_len(),
    {
        proof {
            use_type_invariant(self);
        }
        map_bytes(&self.mapping, self.start, self.end)
    }

    /// Get a subslice from the same mapping: the bytes from `start` up to
    /// `end`, both counted from the start of this slice.
    pub fn subslice(&self, start: usize, end: usize) -> (slice: MappedSlice)
        requires
            start <= end <= self.spec_len(),
        ensures
            slice.offset() == self.offset() + start,
            slice.spec_len() == end - start,
            slice.whole() == self.whole(),
    {
        proof {
            use_type_invariant(self);
        }
        MappedSlice {
            mapping: share(&self.mapping),
            start: self.start + start,
            end: self.start + end,
        }
    }

    /// The subslice from `start` up to `end`, where that lies within this
    /// slice.
    pub fn checked_subslice(&self, start: usize, end: usize) -> (slice: Option<MappedSlice>)
        ensures
            slice is Some <==> start <= end <= self.spec_len(),
            slice matches Some(s) ==> s.offset() == self.offset() + start && s.spec_len() == end
                - start && s.whole() == self.whole(),
    {
        if start <= end && end <= self.len() {
            Some(self.subslice(start, end))
        } else {
            None
        }
    }

    /// The slice of a section of the mapped object file: the bytes at its
    /// file range, given as offset and size, or no bytes for a section that
    /// the file does not have or whose range does not lie in this slice.
    pub fn section(&self, range: Option<(u64, u64)>) -> (slice: MappedSlice)
        ensures
            slice.whole() == self.whole(),
            match range {
                Some((offset, size)) if offset + size <= self.spec_len() => slice.offset()
                    == self.offset() + offset && slice.spec_len() == size,
                _ => slice.offset() == self.offset() && slice.spec_len() == 0,
            },
    {
        let len = self.len();
        match range {
            Some((offset, size)) => {
                if offset <= len as u64 && size <= len as u64 - offset {
                    self.subslice(offset as usize, (offset + size) as usize)
                } else {
                    self.subslice(0, 0)
                }
            },
            None => self.subslice(0, 0),
        }
    }
}

impl Clone for MappedSlice {
    fn clone(&self) -> (copy: Self)
        ensures
            copy.offset() == self.offset(),
            copy.spec_len() == self.spec_len(),
            copy.whole() == self.whole(),
    {
        proof {
            use_type_invariant(self);
        }
        MappedSlice { mapping: share(&self.mapping), start: self.start, end: self.end }
    }
}

} // verus!
