use vstd::prelude::*;

use crate::chunk::Chunk;
use crate::chunker::{covered, Chunker};

verus! {

/// Size parameters of content-defined chunking: minimum, average and
/// maximum chunk size.
#[derive(Clone, Copy, Debug, PartialEq, Eq, Structural)]
pub struct SizeParams {
    pub min: usize,
    pub avg: usize,
    pub max: usize,
}

/// Smallest minimum chunk size at which the Leap chunker's windows fit
/// before its first candidate cut point.
pub const LEAP_MIN_FLOOR: usize = 204;

/// `cuts` are (position, length) pairs that cover `0 .. n` in order, each
/// non-empty when `n > 0`.
pub open spec fn cuts_cover(cuts: Seq<(usize, usize)>, n: nat) -> bool {
    &&& cuts.len() >= 1
    &&& cuts[0].0 == 0
    &&& forall|i: int| 0 < i < cuts.len() ==> #[trigger] cuts[i].0 == cuts[i - 1].0 + cuts[i - 1].1
    &&& cuts.last().0 + cuts.last().1 == n
    &&& n > 0 ==> forall|i: int| 0 <= i < cuts.len() ==> #[trigger] cuts[i].1 > 0
    &&& n == 0 ==> cuts.len() == 1
}

/// The (position, length) cut points that the Leap-based algorithm finds in
/// `data` with the given minimum, average and maximum chunk size.
pub uninterp spec fn leap_cut_list(data: Seq<u8>, min: usize, avg: usize, max: usize) -> Seq<(usize, usize)>;

/// The chunks of all cut points but the last, which the end of the buffer
/// cut short.
pub fn chunks_before_last_cut(cuts: &Vec<(usize, usize)>, empty: Vec<Chunk>) -> (r: Vec<Chunk>)
    requires
        empty@.len() == 0,
    ensures
        r@.len() == if cuts@.len() > 0 { cuts@.len() - 1 } else { 0 },
        forall|i: int| 0 <= i < r@.len() ==> (#[trigger] r@[i]).start() == cuts@[i].0 && r@[i].len() == cuts@[i].1,
{
    let mut chunks = empty;
    let mut k: usize = 0;
    while k < cuts.len() && cuts.len() - k > 1
        invariant
            k == chunks@.len(),
            k < cuts@.len() || (k == 0 && cuts@.len() == 0),
            forall|i: int| 0 <= i < k ==> (#[trigger] chunks@[i]).start() == cuts@[i].0 && chunks@[i].len() == cuts@[i].1,
        decreases cuts@.len() - k,
    {
        chunks.push(Chunk::new(cuts[k].0, cuts[k].1));
        k = k + 1;
    }
    chunks
}

/// Relies on `cdc_chunkers::SizeParams::leap_default`, which returns
/// min 8192, avg 12288 and max 16384.
#[verifier::external_body]
fn leap_default_sizes() -> (r: SizeParams)
    ensures
        r == (SizeParams { min: 8192, avg: 12288, max: 16384 }),
{
    let s = cdc_chunkers::SizeParams::leap_default();
    SizeParams { min: s.min, avg: s.avg, max: s.max }
}

/// Relies on the iterator `cdc_chunkers::leap_based::Chunker`: its chunks
/// cover the whole buffer in order, the last one ending at the buffer's
/// end; each is non-empty unless the buffer is empty, which gives one empty
/// chunk. With `min` below the floor its windows would index before the
/// buffer's start, and near `usize::MAX` its position would overflow.
#[verifier::external_body]
fn leap_cuts(data: &[u8], sizes: SizeParams) -> (r: Vec<(usize, usize)>)
    requires
        LEAP_MIN_FLOOR <= sizes.min,
        data@.len() + sizes.max + sizes.min <= usize::MAX,
    ensures
        r@ == leap_cut_list(data@, sizes.min, sizes.avg, sizes.max),
        cuts_cover(r@, data@.len()),
{
    let s = cdc_chunkers::SizeParams { min: sizes.min, avg: sizes.avg, max: sizes.max };
    cdc_chunkers::leap_based::Chunker::new(data, s).map(|c| (c.pos, c.len)).collect()
}

/// Chunker that uses the Leap-based content-defined chunking algorithm.
pub struct LeapChunker {
    sizes: SizeParams,
}

impl LeapChunker {
    #[verifier::type_invariant]
    spec fn inv(&self) -> bool {
        &&& LEAP_MIN_FLOOR <= self.sizes.min <= self.sizes.avg <= self.sizes.max
    }

    pub closed spec fn sizes(&self) -> SizeParams {
        self.sizes
    }

    pub fn new(sizes: SizeParams) -> (r: Self)
        requires
            LEAP_MIN_FLOOR <= sizes.min <= sizes.avg <= sizes.max,
        ensures
            r.sizes() == sizes,
    {
        LeapChunker { sizes }
    }

    pub fn size_params(&self) -> (r: SizeParams)
        ensures
            r == self.sizes(),
    {
        self.sizes
    }

    /// A chunker with the algorithm's default sizes.
    pub fn default_sizes() -> (r: Self)
        ensures
            r.sizes() == (SizeParams { min: 8192, avg: 12288, max: 16384 }),
    {
        LeapChunker::new(leap_default_sizes())
    }
}

impl Default for LeapChunker {
    /// A chunker with the algorithm's default sizes.
    fn default() -> (r: Self)
        ensures
            r.sizes() == (SizeParams { min: 8192, avg: 12288, max: 16384 }),
    {
        LeapChunker::default_sizes()
    }
}

impl Chunker for LeapChunker {
    /// The algorithm's chunks but the last, which the end of the buffer cut
    /// short; its bytes are left to the caller.
    fn chunk_data(&mut self, data: &[u8], empty: Vec<Chunk>) -> (r: Vec<Chunk>)
        ensures
            data@.len() > 0 && data@.len() + old(self).sizes().max + old(self).sizes().min <= usize::MAX
                ==> covered(r@) < data@.len(),
            ({
                let sz = old(self).sizes();
                let cuts = leap_cut_list(data@, sz.min, sz.avg, sz.max);
                if data@.len() + sz.max + sz.min <= usize::MAX {
                    &&& r@.len() + 1 == cuts.len()
                    &&& forall|i: int|
                        0 <= i < r@.len() ==> (#[trigger] r@[i]).start() == cuts[i].0 && r@[i].len()
                            == cuts[i].1
                } else {
                    r@.len() == 0
                }
            }),
    {
        proof {
            use_type_invariant(&*self);
        }
        let mut chunks = empty;
        let room = usize::MAX - self.sizes.max;
        if self.sizes.min > room || data.len() > room - self.sizes.min {
            return chunks;
        }
        let cuts = leap_cuts(data, self.sizes);
        let chunks = chunks_before_last_cut(&cuts, chunks);
        proof {
            lemma_cut_ends(cuts@, data@.len());
            if data@.len() == 0 {
                assert(chunks@.len() == 0);
            }
            assert forall|i: int| 0 < i < chunks@.len() implies #[trigger] chunks@[i].start() == chunks@[i - 1].end() by {
                assert(cuts@[i].0 == cuts@[i - 1].0 + cuts@[i - 1].1);
            }
            assert forall|i: int| 0 <= i < chunks@.len() implies #[trigger] chunks@[i].end() <= data@.len() && chunks@[i].len() > 0 by {
                assert(cuts@[i].0 + cuts@[i].1 <= data@.len());
                assert(cuts@[i].1 > 0);
            }
            if chunks@.len() > 0 {
                let n = chunks@.len() - 1;
                assert(chunks@.last() == chunks@[n]);
                assert(cuts@[n + 1].0 == cuts@[n].0 + cuts@[n].1);
                assert(cuts@[n + 1].0 + cuts@[n + 1].1 <= data@.len());
            }
        }
        chunks
    }

    fn estimate_chunk_count(&self, data: &[u8]) -> (r: usize)
        ensures
            r == data@.len() / (self.sizes().min as nat),
    {
        proof {
            use_type_invariant(self);
        }
        data.len() / self.sizes.min
    }
}

/// Every cut ends within the buffer, and every cut before the last is
/// non-empty when the buffer is.
pub proof fn lemma_cut_ends(cuts: Seq<(usize, usize)>, n: nat)
    requires
        cuts_cover(cuts, n),
    ensures
        forall|i: int| 0 <= i < cuts.len() ==> #[trigger] cuts[i].0 + cuts[i].1 <= n,
{
    assert forall|i: int| 0 <= i < cuts.len() implies #[trigger] cuts[i].0 + cuts[i].1 <= n by {
        lemma_cut_end_le(cuts, n, i);
    }
}

proof fn lemma_cut_end_le(cuts: Seq<(usize, usize)>, n: nat, i: int)
    requires
        cuts_cover(cuts, n),
        0 <= i < cuts.len(),
    ensures
        cuts[i].0 + cuts[i].1 <= n,
    decreases cuts.len() - i,
{
    if i + 1 < cuts.len() {
        lemma_cut_end_le(cuts, n, i + 1);
        assert(cuts[i + 1].0 == cuts[i].0 + cuts[i].1);
    } else {
        assert(cuts.last() == cuts[i]);
    }
}

} // verus!
