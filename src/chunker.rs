use vstd::prelude::*;

use crate::chunk::Chunk;

verus! {

/// `chunks` are non-empty, consecutive windows starting at byte 0 and ending
/// at or before byte `n`: they tile a prefix of an `n`-byte buffer.
pub open spec fn tiles_prefix(chunks: Seq<Chunk>, n: nat) -> bool {
    &&& forall|i: int| 0 <= i < chunks.len() ==> #[trigger] chunks[i].len() > 0
    &&& forall|i: int| 0 <= i < chunks.len() ==> #[trigger] chunks[i].end() <= n
    &&& chunks.len() > 0 ==> chunks[0].start() == 0
    &&& forall|i: int| 0 < i < chunks.len() ==> #[trigger] chunks[i].start() == chunks[i - 1].end()
}

/// Number of leading bytes of the buffer that `chunks` cover.
pub open spec fn covered(chunks: Seq<Chunk>) -> nat {
    if chunks.len() == 0 {
        0
    } else {
        chunks.last().end()
    }
}

/// An object that splits a buffer into chunks without touching the bytes.
///
/// Only complete chunks are reported; the bytes after the last one are left
/// to the caller, which hands them in again with the next buffer.
pub trait Chunker {
    /// Finds the chunks of `data` and appends them to `empty`, which comes in
    /// empty with the capacity given by `estimate_chunk_count`.
    fn chunk_data(&mut self, data: &[u8], empty: Vec<Chunk>) -> (r: Vec<Chunk>)
        requires
            empty@.len() == 0,
        ensures
            tiles_prefix(r@, data@.len()),
    ;

    /// Rough number of chunks in `data`, used only to size the output.
    fn estimate_chunk_count(&self, data: &[u8]) -> usize;
}

/// Fixed-size chunking: cuts the buffer into pieces of `chunk_size` bytes.
pub struct FSChunker {
    chunk_size: usize,
}

impl FSChunker {
    #[verifier::type_invariant]
    spec fn inv(&self) -> bool {
        self.chunk_size > 0
    }

    /// Size of every chunk this chunker emits.
    pub closed spec fn size(&self) -> nat {
        self.chunk_size as nat
    }

    pub fn new(chunk_size: usize) -> (r: Self)
        requires
            chunk_size > 0,
        ensures
            r.size() == chunk_size,
    {
        FSChunker { chunk_size }
    }

    pub fn chunk_size(&self) -> (r: usize)
        ensures
            r == self.size(),
    {
        self.chunk_size
    }

    /// A chunker with chunks of 4096 bytes.
    pub fn default_size() -> (r: Self)
        ensures
            r.size() == 4096,
    {
        Self::new(4096)
    }
}

impl Default for FSChunker {
    /// A chunker with chunks of 4096 bytes.
    fn default() -> (r: Self)
        ensures
            r.size() == 4096,
    {
        FSChunker::default_size()
    }
}

impl Chunker for FSChunker {
    /// Emits every complete `chunk_size` window; the short remainder is left
    /// to the caller.
    fn chunk_data(&mut self, data: &[u8], empty: Vec<Chunk>) -> (r: Vec<Chunk>)
        ensures
            r@.len() * old(self).size() <= data@.len() < (r@.len() + 1) * old(self).size(),
            forall|i: int|
                0 <= i < r@.len() ==> #[trigger] r@[i].start() == i * old(self).size()
                    && r@[i].len() == old(self).size(),
    {
        proof {
            use_type_invariant(&*self);
        }
        let size = self.chunk_size;
        let mut chunks = empty;
        let mut offset: usize = 0;
        while offset <= data.len() && data.len() - offset >= size
            invariant
                size == old(self).size(),
                size > 0,
                offset == chunks@.len() * size,
                offset <= data@.len(),
                forall|i: int|
                    0 <= i < chunks@.len() ==> #[trigger] chunks@[i].start() == i * size
                        && chunks@[i].len() == size,
            decreases data@.len() - offset,
        {
            proof {
                assert((chunks@.len() + 1) * size == chunks@.len() * size + size)
                    by (nonlinear_arith);
            }
            chunks.push(Chunk::new(offset, size));
            offset = offset + size;
        }
        proof {
            assert((chunks@.len() + 1) * size == chunks@.len() * size + size) by (nonlinear_arith);
            assert forall|i: int| 0 <= i < chunks@.len() implies #[trigger] chunks@[i].len() > 0 by {
                assert(chunks@[i].start() == i * size);
            }
            if chunks@.len() > 0 {
                assert(chunks@[0].start() == 0 * size);
                assert(0 * size == 0);
            }
            assert forall|i: int| 0 < i < chunks@.len() implies #[trigger] chunks@[i].start()
                == chunks@[i - 1].end() by {
                assert((i - 1) * size + size == i * size) by (nonlinear_arith);
            }
            assert forall|i: int| 0 <= i < chunks@.len() implies #[trigger] chunks@[i].end()
                <= data@.len() by {
                assert(i * size + size <= chunks@.len() * size) by (nonlinear_arith)
                    requires
                        0 <= i < chunks@.len(),
                        size > 0,
                ;
            }
        }
        chunks
    }

    fn estimate_chunk_count(&self, data: &[u8]) -> (r: usize)
        ensures
            r == data@.len() / self.size() + 1 || (r == usize::MAX && data@.len() / self.size()
                == usize::MAX),
    {
        proof {
            use_type_invariant(self);
        }
        let q = data.len() / self.chunk_size;
        if q < usize::MAX {
            q + 1
        } else {
            q
        }
    }
}

} // verus!
