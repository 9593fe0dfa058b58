//! Migration of chunks from the store that writes fill (the CDC map) to a
//! long-term store (the target map).
use vstd::prelude::*;

use std::time::Duration;

use crate::assoc::{as_map, has_key, lemma_as_map_index, lemma_as_map_push, lemma_as_map_update, unique_keys};
use crate::bytes::{bytes_eq, copy_bytes};
use crate::clock::{elapsed, now};
use crate::database::Database;
use crate::error::{Error, ErrorKind};

verus! {

/// An entry of the CDC map: the chunk's bytes, or a marker saying that they
/// moved to the target map.
#[derive(Debug)]
pub enum Data {
    Chunk(Vec<u8>),
    TargetChunk,
}

impl Default for Data {
    /// An empty chunk.
    fn default() -> (r: Self)
        ensures
            data_view(r) == Some(Seq::<u8>::empty()),
    {
        Data::Chunk(Vec::new())
    }
}

/// The bytes an entry holds; `None` for the marker.
pub open spec fn data_view(d: Data) -> Option<Seq<u8>> {
    match d {
        Data::Chunk(b) => Some(b@),
        Data::TargetChunk => None,
    }
}

/// Which store holds a hash's payload.
#[derive(Clone, Copy, Debug, PartialEq, Eq, Structural)]
pub enum MapType {
    Cdc,
    Target,
}

/// What a scrubbing pass did: bytes moved, time taken, bytes left behind.
#[derive(Debug, Default, PartialEq, Eq, Copy, Clone)]
pub struct ScrubMeasurements {
    processed_data: usize,
    running_time: Duration,
    data_left: usize,
}

impl ScrubMeasurements {
    pub closed spec fn spec_processed(&self) -> nat {
        self.processed_data as nat
    }

    pub closed spec fn spec_left(&self) -> nat {
        self.data_left as nat
    }

    pub fn new(processed_data: usize, running_time: Duration, data_left: usize) -> (r: Self)
        ensures
            r.spec_processed() == processed_data,
            r.spec_left() == data_left,
    {
        ScrubMeasurements { processed_data, running_time, data_left }
    }

    pub fn processed_data(&self) -> (r: usize)
        ensures
            r == self.spec_processed(),
    {
        self.processed_data
    }

    pub fn running_time(&self) -> Duration {
        self.running_time
    }

    pub fn data_left(&self) -> (r: usize)
        ensures
            r == self.spec_left(),
    {
        self.data_left
    }
}

/// The CDC map: hash to entry, each hash once.
pub struct CdcMap {
    entries: Vec<(Vec<u8>, Data)>,
}

impl CdcMap {
    pub closed spec fn entries(&self) -> Seq<(Seq<u8>, Option<Seq<u8>>)> {
        self.entries@.map_values(|p: (Vec<u8>, Data)| (p.0@, data_view(p.1)))
    }

    /// Each hash with the bytes of its entry, `None` for a marker.
    pub open spec fn view(&self) -> Map<Seq<u8>, Option<Seq<u8>>> {
        as_map(self.entries())
    }

    pub closed spec fn well_formed(&self) -> bool {
        unique_keys(self.entries())
    }

    pub fn new() -> (r: Self)
        ensures
            r.well_formed(),
            r.view() == Map::<Seq<u8>, Option<Seq<u8>>>::empty(),
    {
        let r = CdcMap { entries: Vec::new() };
        assert(r.view() =~= Map::<Seq<u8>, Option<Seq<u8>>>::empty());
        r
    }

    fn find(&self, key: &Vec<u8>) -> (r: Option<usize>)
        ensures
            r matches Some(i) ==> i < self.entries().len() && self.entries()[i as int].0 == key@,
            r is None ==> !has_key(self.entries(), key@),
    {
        let mut i: usize = 0;
        while i < self.entries.len()
            invariant
                i <= self.entries@.len(),
                self.entries().len() == self.entries@.len(),
                forall|j: int| 0 <= j < i ==> self.entries()[j].0 != key@,
            decreases self.entries@.len() - i,
        {
            if bytes_eq(self.entries[i].0.as_slice(), key.as_slice()) {
                return Some(i);
            }
            i = i + 1;
        }
        None
    }

    /// Stores `value` under `key`, replacing what was there.
    pub fn insert(&mut self, key: Vec<u8>, value: Data)
        requires
            old(self).well_formed(),
        ensures
            final(self).well_formed(),
            final(self).view() == old(self).view().insert(key@, data_view(value)),
    {
        let ghost before = self.entries();
        let ghost (k, v) = (key@, data_view(value));
        match self.find(&key) {
            Some(i) => {
                self.entries.set(i, (key, value));
                proof {
                    assert(self.entries() =~= before.update(i as int, (before[i as int].0, v)));
                    lemma_as_map_update(before, i as int, v);
                }
            },
            None => {
                self.entries.push((key, value));
                proof {
                    assert(self.entries() =~= before.push((k, v)));
                    lemma_as_map_push(before, k, v);
                }
            },
        }
    }

    /// Number of entries.
    pub fn len(&self) -> (r: usize)
        requires
            self.well_formed(),
        ensures
            r == self.entries().len(),
    {
        self.entries.len()
    }
}

/// A pass that moves chunks from the CDC map to the target map.
pub trait Scrub<B: Database> {
    fn scrub(&mut self, cdc_map: &mut CdcMap, target_map: &mut B) -> (r: ScrubMeasurements)
        requires
            old(cdc_map).well_formed(),
            old(target_map).well_formed(),
        ensures
            final(cdc_map).well_formed(),
            final(target_map).well_formed(),
    ;
}

/// Scrubber that copies every chunk still held in the CDC map into the
/// target map and leaves a marker in its place.
pub struct CopyScrubber;

/// Bytes held inline by the entries of `s`.
pub open spec fn inline_total(s: Seq<(Seq<u8>, Option<Seq<u8>>)>) -> nat
    decreases s.len(),
{
    if s.len() == 0 {
        0
    } else {
        inline_total(s.drop_last()) + match s.last().1 {
            Some(b) => b.len(),
            None => 0,
        }
    }
}

/// What one scrubbing step leaves once the target map answered the offer
/// of an entry's `len` bytes: whether the entry becomes a marker, then the
/// bytes moved and the bytes left behind.
pub fn settle(outcome: &Result<(), Error>, len: usize) -> (r: (bool, usize, usize))
    ensures
        outcome is Ok ==> r == (true, len, 0usize),
        outcome is Err ==> r == (false, 0usize, len),
{
    match outcome {
        Ok(()) => (true, len, 0),
        Err(_) => (false, 0, len),
    }
}

impl<B: Database> Scrub<B> for CopyScrubber {
    /// Each entry is moved if the target map takes it and left as it was
    /// otherwise; markers stay markers. No hash is added or dropped, and
    /// the target map keeps every payload it had. A moved chunk whose hash
    /// the target map lacked is stored there with its bytes. Bytes moved
    /// and bytes left add up to the bytes held inline before.
    fn scrub(&mut self, cdc_map: &mut CdcMap, target_map: &mut B) -> (r: ScrubMeasurements)
        ensures
            final(cdc_map).view().dom() == old(cdc_map).view().dom(),
            forall|k: Seq<u8>|
                #[trigger] old(target_map).contents().contains_key(k)
                    ==> final(target_map).contents().contains_key(k)
                    && final(target_map).contents()[k] == old(target_map).contents()[k],
            forall|k: Seq<u8>|
                #[trigger] final(cdc_map).view().contains_key(k) ==> (final(cdc_map).view()[k]
                    == old(cdc_map).view()[k] || (final(cdc_map).view()[k] is None
                    && final(target_map).contents().contains_key(k))),
            forall|k: Seq<u8>|
                #[trigger] final(cdc_map).view().contains_key(k) && final(cdc_map).view()[k] is None
                    && old(cdc_map).view()[k] is Some && !old(target_map).contents().contains_key(k)
                    ==> final(target_map).contents().contains_key(k) && final(target_map).contents()[k]
                    == old(cdc_map).view()[k]->Some_0,
            inline_total(old(cdc_map).entries()) <= usize::MAX ==> r.spec_processed() + r.spec_left()
                == inline_total(old(cdc_map).entries()),
            final(target_map).reliable() == old(target_map).reliable(),
            old(target_map).reliable() ==> r.spec_left() == 0,
            forall|k: Seq<u8>|
                #[trigger] final(cdc_map).view().contains_key(k) && old(target_map).reliable()
                    ==> final(cdc_map).view()[k] is None && (old(cdc_map).view()[k] is Some
                    ==> final(target_map).contents().contains_key(k)),
    {
        let started = now();
        let mut processed: usize = 0;
        let mut left: usize = 0;
        let mut i: usize = 0;
        let ghost cdc0 = cdc_map.entries();
        let ghost db0 = target_map.contents();
        proof {
            assert(cdc0.subrange(0, 0).len() == 0);
        }
        while i < cdc_map.entries.len()
            invariant
                cdc_map.well_formed(),
                target_map.well_formed(),
                unique_keys(cdc0),
                i <= cdc_map.entries@.len(),
                cdc_map.entries@.len() == cdc0.len(),
                cdc_map.entries().len() == cdc0.len(),
                forall|j: int| 0 <= j < cdc0.len() ==> (#[trigger] cdc_map.entries()[j]).0 == cdc0[j].0,
                forall|j: int| i <= j < cdc0.len() ==> #[trigger] cdc_map.entries()[j] == cdc0[j],
                forall|j: int|
                    0 <= j < cdc0.len() ==> (#[trigger] cdc_map.entries()[j]).1 == cdc0[j].1 || (
                    cdc_map.entries()[j].1 is None && target_map.contents().contains_key(cdc0[j].0)),
                forall|j: int|
                    0 <= j < i && (#[trigger] cdc_map.entries()[j]).1 is None && cdc0[j].1 is Some
                        && !db0.contains_key(cdc0[j].0) ==> target_map.contents().contains_key(cdc0[j].0)
                        && target_map.contents()[cdc0[j].0] == cdc0[j].1->Some_0,
                forall|k: Seq<u8>|
                    #[trigger] target_map.contents().contains_key(k) && !db0.contains_key(k) ==> exists|j: int|
                        0 <= j < i && cdc0[j].0 == k,
                forall|k: Seq<u8>|
                    #[trigger] db0.contains_key(k) ==> target_map.contents().contains_key(k)
                        && target_map.contents()[k] == db0[k],
                inline_total(cdc0.subrange(0, i as int)) <= usize::MAX ==> processed + left
                    == inline_total(cdc0.subrange(0, i as int)),
                target_map.reliable() == old(target_map).reliable(),
                old(target_map).reliable() ==> left == 0,
                forall|j: int|
                    0 <= j < i && old(target_map).reliable() ==> (#[trigger] cdc_map.entries()[j]).1 is None
                        && (cdc0[j].1 is Some ==> target_map.contents().contains_key(cdc0[j].0)),
            decreases cdc0.len() - i,
        {
            proof {
                assert(cdc0.subrange(0, i + 1).drop_last() =~= cdc0.subrange(0, i as int));
                assert(cdc0.subrange(0, i + 1).last() == cdc0[i as int]);
                assert(cdc_map.entries()[i as int] == cdc0[i as int]);
            }
            let bytes = match &cdc_map.entries[i].1 {
                Data::Chunk(b) => copy_bytes(b.as_slice()),
                Data::TargetChunk => {
                    i = i + 1;
                    continue;
                },
            };
            let key = copy_bytes(cdc_map.entries[i].0.as_slice());
            let n = bytes.len();
            let ghost k0 = key@;
            let ghost b0 = bytes@;
            let ghost before = cdc_map.entries();
            let ghost t_before = target_map.contents();
            proof {
                assert(cdc0[i as int].1 == Some(b0));
                if !db0.contains_key(k0) && t_before.contains_key(k0) {
                    let j = choose|j: int| 0 <= j < i && cdc0[j].0 == k0;
                    assert(cdc0[j].0 == cdc0[i as int].0);
                }
            }
            let outcome = target_map.try_insert(key, bytes);
            let step = settle(&outcome, n);
            if step.0 {
                let key2 = copy_bytes(cdc_map.entries[i].0.as_slice());
                cdc_map.entries.set(i, (key2, Data::TargetChunk));
                proof {
                    assert(cdc_map.entries() =~= before.update(i as int, (before[i as int].0, None)));
                    assert forall|a: int, b: int|
                        0 <= a < cdc_map.entries().len() && 0 <= b < cdc_map.entries().len() && a != b
                        implies cdc_map.entries()[a].0 != cdc_map.entries()[b].0 by {
                        assert(cdc_map.entries()[a].0 == before[a].0);
                        assert(cdc_map.entries()[b].0 == before[b].0);
                    }
                }
            }
            processed = processed.saturating_add(step.1);
            left = left.saturating_add(step.2);
            proof {
                let t1 = target_map.contents();
                assert forall|k: Seq<u8>| #[trigger] t1.contains_key(k) && !db0.contains_key(k) implies exists|j: int|
                    0 <= j < i + 1 && cdc0[j].0 == k by {
                    if k == k0 {
                        assert(cdc0[i as int].0 == k);
                    } else {
                        assert(t_before.contains_key(k));
                        let j = choose|j: int| 0 <= j < i && cdc0[j].0 == k;
                        assert(0 <= j < i + 1 && cdc0[j].0 == k);
                    }
                }
                assert forall|j: int|
                    0 <= j < i + 1 && (#[trigger] cdc_map.entries()[j]).1 is None && cdc0[j].1 is Some
                        && !db0.contains_key(cdc0[j].0) implies target_map.contents().contains_key(cdc0[j].0)
                        && target_map.contents()[cdc0[j].0] == cdc0[j].1->Some_0 by {
                    if j < i {
                        assert(before[j] == cdc_map.entries()[j]);
                        assert(t_before.contains_key(cdc0[j].0));
                    }
                }
                assert forall|j: int|
                    0 <= j < i + 1 && old(target_map).reliable() implies (#[trigger] cdc_map.entries()[j]).1 is None
                        && (cdc0[j].1 is Some ==> target_map.contents().contains_key(cdc0[j].0)) by {
                    if j < i {
                        assert(before[j] == cdc_map.entries()[j]);
                        if cdc0[j].1 is Some {
                            assert(t_before.contains_key(cdc0[j].0));
                        }
                    }
                }
                assert forall|j: int| 0 <= j < cdc0.len() implies (#[trigger] cdc_map.entries()[j]).1 == cdc0[j].1 || (
                    cdc_map.entries()[j].1 is None && target_map.contents().contains_key(cdc0[j].0)) by {
                    if j != i {
                        assert(before[j] == cdc_map.entries()[j]);
                        if before[j].1 != cdc0[j].1 {
                            assert(t_before.contains_key(cdc0[j].0));
                        }
                    }
                }
            }
            i = i + 1;
        }
        proof {
            assert(cdc0.subrange(0, i as int) =~= cdc0);
            let c1 = cdc_map.entries();
            assert forall|k: Seq<u8>| #[trigger] cdc_map.view().contains_key(k) implies (cdc_map.view()[k]
                == as_map(cdc0)[k] || (cdc_map.view()[k] is None && target_map.contents().contains_key(k))) by {
                let j = choose|j: int| 0 <= j < c1.len() && c1[j].0 == k;
                lemma_as_map_index(c1, j);
                lemma_as_map_index(cdc0, j);
            }
            assert forall|k: Seq<u8>|
                #[trigger] cdc_map.view().contains_key(k) && cdc_map.view()[k] is None
                    && as_map(cdc0)[k] is Some && !db0.contains_key(k)
                    implies target_map.contents().contains_key(k) && target_map.contents()[k]
                    == as_map(cdc0)[k]->Some_0 by {
                let j = choose|j: int| 0 <= j < c1.len() && c1[j].0 == k;
                lemma_as_map_index(c1, j);
                lemma_as_map_index(cdc0, j);
            }
            assert forall|k: Seq<u8>|
                #[trigger] cdc_map.view().contains_key(k) && old(target_map).reliable()
                    implies cdc_map.view()[k] is None && (as_map(cdc0)[k] is Some
                    ==> target_map.contents().contains_key(k)) by {
                let j = choose|j: int| 0 <= j < c1.len() && c1[j].0 == k;
                lemma_as_map_index(c1, j);
                lemma_as_map_index(cdc0, j);
            }
            assert forall|k: Seq<u8>| cdc_map.view().contains_key(k) <==> as_map(cdc0).contains_key(k) by {
                if has_key(c1, k) {
                    let j = choose|j: int| 0 <= j < c1.len() && c1[j].0 == k;
                    assert(cdc0[j].0 == k);
                }
                if has_key(cdc0, k) {
                    let j = choose|j: int| 0 <= j < cdc0.len() && cdc0[j].0 == k;
                    assert(c1[j].0 == k);
                }
            }
            assert(cdc_map.view().dom() =~= as_map(cdc0).dom());
        }
        ScrubMeasurements::new(processed, elapsed(&started), left)
    }
}

/// The CDC map, the target map, the scrubber that moves chunks between them,
/// and a record of which map holds each hash.
pub struct ChunkStorage<B: Database, S: Scrub<B>> {
    cdc_map: CdcMap,
    scrubber: S,
    target_map: B,
    correspondence_map: Vec<(Vec<u8>, MapType)>,
}

impl CdcMap {
    /// The entry under `key`: `Some(Some(bytes))` for a chunk held here,
    /// `Some(None)` for a marker, `None` if the hash is absent.
    pub fn lookup(&self, key: &Vec<u8>) -> (r: Option<Option<Vec<u8>>>)
        requires
            self.well_formed(),
        ensures
            r is None <==> !self.view().contains_key(key@),
            r matches Some(d) ==> (d is None <==> self.view()[key@] is None),
            r matches Some(Some(b)) ==> self.view()[key@] == Some(b@),
    {
        match self.find(key) {
            None => None,
            Some(i) => {
                proof {
                    lemma_as_map_index(self.entries(), i as int);
                }
                match &self.entries[i].1 {
                    Data::Chunk(b) => Some(Some(copy_bytes(b.as_slice()))),
                    Data::TargetChunk => Some(None),
                }
            },
        }
    }

    /// Each hash with the map that holds its payload.
    fn placement(&self) -> (r: Vec<(Vec<u8>, MapType)>)
        requires
            self.well_formed(),
        ensures
            r@.len() == self.entries().len(),
            forall|i: int|
                0 <= i < r@.len() ==> (#[trigger] r@[i]).0@ == self.entries()[i].0 && r@[i].1 == (if self.entries()[i].1 is None {
                    MapType::Target
                } else {
                    MapType::Cdc
                }),
    {
        let mut out: Vec<(Vec<u8>, MapType)> = Vec::new();
        let mut i: usize = 0;
        while i < self.entries.len()
            invariant
                i <= self.entries@.len(),
                self.entries().len() == self.entries@.len(),
                out@.len() == i,
                forall|j: int|
                    0 <= j < i ==> (#[trigger] out@[j]).0@ == self.entries()[j].0 && out@[j].1 == (if self.entries()[j].1 is None {
                        MapType::Target
                    } else {
                        MapType::Cdc
                    }),
            decreases self.entries@.len() - i,
        {
            let key = copy_bytes(self.entries[i].0.as_slice());
            let place = match &self.entries[i].1 {
                Data::Chunk(_) => MapType::Cdc,
                Data::TargetChunk => MapType::Target,
            };
            out.push((key, place));
            i = i + 1;
        }
        out
    }
}

impl<B: Database, S: Scrub<B>> ChunkStorage<B, S> {
    pub closed spec fn well_formed(&self) -> bool {
        self.cdc_map.well_formed() && self.target_map.well_formed()
    }

    /// Each hash of the CDC map with the map that held its payload at the
    /// last scrubbing pass.
    pub closed spec fn correspondence(&self) -> Seq<(Seq<u8>, MapType)> {
        self.correspondence_map@.map_values(|p: (Vec<u8>, MapType)| (p.0@, p.1))
    }

    pub closed spec fn cdc(&self) -> Map<Seq<u8>, Option<Seq<u8>>> {
        self.cdc_map.view()
    }

    pub closed spec fn target(&self) -> Map<Seq<u8>, Seq<u8>> {
        self.target_map.contents()
    }

    pub fn new(cdc_map: CdcMap, target_map: B, scrubber: S) -> (r: Self)
        requires
            cdc_map.well_formed(),
            target_map.well_formed(),
        ensures
            r.well_formed(),
            r.cdc() == cdc_map.view(),
            r.target() == target_map.contents(),
            r.correspondence() == Seq::<(Seq<u8>, MapType)>::empty(),
    {
        let r = ChunkStorage { cdc_map, scrubber, target_map, correspondence_map: Vec::new() };
        assert(r.correspondence() =~= Seq::<(Seq<u8>, MapType)>::empty());
        r
    }

    /// Puts a chunk into the CDC map.
    pub fn insert(&mut self, key: Vec<u8>, bytes: Vec<u8>)
        requires
            old(self).well_formed(),
        ensures
            final(self).well_formed(),
            final(self).cdc() == old(self).cdc().insert(key@, Some(bytes@)),
            final(self).target() == old(self).target(),
    {
        self.cdc_map.insert(key, Data::Chunk(bytes));
    }

    /// The payload of `key`, from the CDC map where it is still held there,
    /// else from the target map; `NotFound` if the CDC map lacks the hash.
    pub fn get(&self, key: &Vec<u8>) -> (r: Result<Vec<u8>, Error>)
        requires
            self.well_formed(),
        ensures
            !self.cdc().contains_key(key@) ==> r is Err && r->Err_0.kind == ErrorKind::NotFound,
            self.cdc().contains_key(key@) && self.cdc()[key@] is Some ==> r is Ok && r->Ok_0@
                == self.cdc()[key@]->Some_0,
            r is Ok && self.cdc()[key@] is None ==> self.target().contains_key(key@) && r->Ok_0@
                == self.target()[key@],
    {
        match self.cdc_map.lookup(key) {
            None => Err(Error::new(ErrorKind::NotFound)),
            Some(Some(b)) => Ok(b),
            Some(None) => self.target_map.get(key),
        }
    }

    /// Runs the scrubber once over the two maps and records, for each hash,
    /// which map now holds its payload.
    pub fn scrub(&mut self) -> (r: ScrubMeasurements)
        requires
            old(self).well_formed(),
        ensures
            final(self).well_formed(),
            forall|i: int|
                0 <= i < final(self).correspondence().len() ==> final(self).cdc().contains_key(
                    #[trigger] final(self).correspondence()[i].0,
                ) && final(self).correspondence()[i].1 == (if final(self).cdc()[final(self).correspondence()[i].0] is None {
                    MapType::Target
                } else {
                    MapType::Cdc
                }),
            forall|k: Seq<u8>|
                #[trigger] final(self).cdc().contains_key(k) ==> exists|i: int|
                    0 <= i < final(self).correspondence().len() && final(self).correspondence()[i].0 == k,
    {
        let m = self.scrubber.scrub(&mut self.cdc_map, &mut self.target_map);
        self.correspondence_map = self.cdc_map.placement();
        proof {
            let e = self.cdc_map.entries();
            assert forall|i: int| 0 <= i < self.correspondence().len() implies self.cdc().contains_key(
                #[trigger] self.correspondence()[i].0,
            ) && self.correspondence()[i].1 == (if self.cdc()[self.correspondence()[i].0] is None {
                MapType::Target
            } else {
                MapType::Cdc
            }) by {
                lemma_as_map_index(e, i);
            }
            assert forall|k: Seq<u8>| #[trigger] self.cdc().contains_key(k) implies exists|i: int|
                0 <= i < self.correspondence().len() && self.correspondence()[i].0 == k by {
                let i = choose|i: int| 0 <= i < e.len() && e[i].0 == k;
                assert(self.correspondence()[i].0 == k);
            }
        }
        m
    }
}

} // verus!
