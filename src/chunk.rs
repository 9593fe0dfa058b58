use vstd::prelude::*;

verus! {

/// A chunk of processed data: a window `offset .. offset + length` into the
/// buffer that produced it. It holds no bytes of its own.
#[derive(Copy, Clone, Debug, PartialEq, Eq, Structural)]
pub struct Chunk {
    offset: usize,
    length: usize,
}

impl Chunk {
    /// First byte of the chunk in its buffer.
    pub closed spec fn start(&self) -> nat {
        self.offset as nat
    }

    /// Number of bytes in the chunk.
    pub closed spec fn len(&self) -> nat {
        self.length as nat
    }

    /// One past the last byte of the chunk in its buffer.
    pub open spec fn end(&self) -> nat {
        self.start() + self.len()
    }

    pub fn new(offset: usize, length: usize) -> (r: Self)
        ensures
            r.start() == offset,
            r.len() == length,
    {
        Chunk { offset, length }
    }

    /// Effective range of the chunk in the data.
    pub fn range(&self) -> (r: std::ops::Range<usize>)
        requires
            self.end() <= usize::MAX,
        ensures
            r.start == self.start(),
            r.end == self.end(),
    {
        self.offset..self.offset + self.length
    }

    pub fn length(&self) -> (r: usize)
        ensures
            r == self.len(),
    {
        self.length
    }

    pub fn offset(&self) -> (r: usize)
        ensures
            r == self.start(),
    {
        self.offset
    }
}

} // verus!
