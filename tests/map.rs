use chunkfs::base::HashMapBase;
use chunkfs::map::{CdcMap, ChunkStorage, CopyScrubber, Data, Scrub, ScrubMeasurements};
use chunkfs::map::settle;
use chunkfs::{Database, Error, ErrorKind, IterableDatabase};

struct DumbScrubber;

impl Scrub<HashMapBase> for DumbScrubber {
    fn scrub(&mut self, _cdc: &mut CdcMap, _target: &mut HashMapBase) -> ScrubMeasurements {
        ScrubMeasurements::default()
    }
}

#[test]
fn hashmap_works_as_cdc_map() {
    let mut chunk_storage = ChunkStorage::new(CdcMap::new(), HashMapBase::default(), DumbScrubber);

    let measurements = chunk_storage.scrub();
    assert_eq!(measurements, ScrubMeasurements::default())
}

#[test]
fn copy_scrubber_moves_chunks_to_target() {
    let mut cdc = CdcMap::new();
    cdc.insert(vec![1], Data::Chunk(vec![1, 1, 1]));
    cdc.insert(vec![2], Data::TargetChunk);
    cdc.insert(vec![3], Data::Chunk(vec![3, 3]));
    let mut target = HashMapBase::default();
    let m = CopyScrubber.scrub(&mut cdc, &mut target);
    assert_eq!(m.processed_data(), 5);
    assert_eq!(m.data_left(), 0);
    assert_eq!(cdc.len(), 3);
    assert_eq!(target.get(&vec![1]).unwrap(), vec![1, 1, 1]);
    assert_eq!(target.get(&vec![3]).unwrap(), vec![3, 3]);
    assert!(!target.contains(&vec![2]));
    assert_eq!(target.keys().len(), 2);
}

#[test]
fn data_default_is_empty_chunk() {
    assert!(matches!(Data::default(), Data::Chunk(v) if v.is_empty()));
}

#[test]
fn chunk_storage_reads_moved_chunks_from_target() {
    let mut storage = ChunkStorage::new(CdcMap::new(), HashMapBase::default(), CopyScrubber);
    storage.insert(vec![1], vec![4, 4]);
    storage.insert(vec![2], vec![5]);
    assert_eq!(storage.get(&vec![1]).unwrap(), vec![4, 4]);
    let m = storage.scrub();
    assert_eq!(m.processed_data(), 3);
    assert_eq!(storage.get(&vec![1]).unwrap(), vec![4, 4]);
    assert_eq!(storage.get(&vec![2]).unwrap(), vec![5]);
    assert_eq!(storage.get(&vec![3]).unwrap_err().kind(), ErrorKind::NotFound);
}

#[test]
fn settle_marks_moved_entries() {
    assert_eq!(settle(&Ok(()), 9), (true, 9, 0));
    assert_eq!(settle(&Err(Error::new(ErrorKind::OutOfMemory)), 9), (false, 0, 9));
}
