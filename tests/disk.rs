use chunkfs::disk::{decode_stored, DiskDatabase};
use chunkfs::{ErrorKind, KB};

/// Writes a value through the store's plans into an in-memory device.
fn put(db: &mut DiskDatabase, device: &mut Vec<u8>, key: Vec<u8>, value: &Vec<u8>) -> Result<(), ErrorKind> {
    let plan = db.prepare_write(value).map_err(|e| e.kind())?;
    let pos = plan.position as usize;
    device[pos..pos + plan.bytes.len()].copy_from_slice(&plan.bytes);
    db.commit(key, plan.info).map_err(|e| e.kind())
}

fn get(db: &DiskDatabase, device: &[u8], key: &Vec<u8>) -> Result<Vec<u8>, ErrorKind> {
    let plan = db.locate(key).map_err(|e| e.kind())?;
    let pos = plan.position as usize;
    decode_stored(&device[pos..pos + plan.length as usize], plan.data_length).map_err(|e| e.kind())
}

#[test]
fn diskdb_write_read_clear() {
    let file_size: u64 = 1024 * 1024 * 12;
    let mut device = vec![0u8; file_size as usize];
    let mut db = DiskDatabase::new(file_size, 512).unwrap();
    let v1: Vec<u8> = vec![1; 8 * KB + 30];
    let v2: Vec<u8> = vec![2; 8 * KB + 70];
    let k1 = vec![0xaa; 32];
    let k2 = vec![0xbb; 32];

    put(&mut db, &mut device, k1.clone(), &v1).unwrap();
    put(&mut db, &mut device, k2.clone(), &v2).unwrap();
    assert_eq!(get(&db, &device, &k1).unwrap(), v1);
    assert_eq!(get(&db, &device, &k2).unwrap(), v2);

    db.clear();
    assert_eq!(get(&db, &device, &k1), Err(ErrorKind::NotFound));
    assert_eq!(db.used_blocks(), 0);
}

#[test]
fn diskdb_capacity_is_exhausted() {
    let mut device = vec![0u8; 1024];
    let mut db = DiskDatabase::new(1024, 512).unwrap();
    put(&mut db, &mut device, vec![1], &vec![5; 512]).unwrap();
    assert_eq!(db.used_blocks(), 2);
    assert_eq!(put(&mut db, &mut device, vec![2], &vec![6; 513]), Err(ErrorKind::OutOfMemory));
    assert_eq!(get(&db, &device, &vec![1]).unwrap(), vec![5; 512]);
}

#[test]
fn diskdb_fills_exactly_to_capacity() {
    let mut device = vec![0u8; 1024];
    let mut db = DiskDatabase::new(1024, 512).unwrap();
    put(&mut db, &mut device, vec![1], &vec![5; 1021]).unwrap();
    assert_eq!(db.used_blocks(), 2);
    assert_eq!(put(&mut db, &mut device, vec![2], &vec![]), Err(ErrorKind::OutOfMemory));
}

#[test]
fn diskdb_zero_block_size_is_invalid() {
    assert_eq!(DiskDatabase::new(4096, 0).err().unwrap().kind(), ErrorKind::InvalidData);
}

#[test]
fn diskdb_keeps_capacity_as_given() {
    let mut device = vec![0u8; 1024];
    let mut db = DiskDatabase::new(1000, 512).unwrap();
    assert_eq!(db.total_size(), 1000);
    assert_eq!(db.block_size(), 512);
    put(&mut db, &mut device, vec![1], &vec![5; 600]).unwrap();
    assert_eq!(db.used_blocks(), 2);
    assert_eq!(put(&mut db, &mut device, vec![2], &vec![]), Err(ErrorKind::OutOfMemory));
}

#[test]
fn prepare_try_insert_skips_present_key() {
    let mut device = vec![0u8; 4096];
    let mut db = DiskDatabase::new(4096, 512).unwrap();
    put(&mut db, &mut device, vec![1], &vec![7; 10]).unwrap();
    assert!(db.prepare_try_insert(&vec![1], &vec![8; 10]).unwrap().is_none());
    let plan = db.prepare_try_insert(&vec![2], &vec![8; 10]).unwrap().unwrap();
    assert_eq!(plan.position, 512);
    assert_eq!(plan.info.start_block, 1);
    assert_eq!(db.keys(), vec![vec![1]]);
}

#[test]
fn large_value_that_does_not_fit_is_out_of_memory() {
    let db = DiskDatabase::new(4096, 512).unwrap();
    let value = vec![0u8; 8192];
    assert_eq!(db.prepare_write(&value).err().unwrap().kind(), ErrorKind::OutOfMemory);
}

#[test]
fn write_plan_holds_length_header_and_padding() {
    let db = DiskDatabase::new(4096, 512).unwrap();
    let value: Vec<u8> = vec![9; 300];
    let plan = db.prepare_write(&value).unwrap();
    assert_eq!(plan.position, 0);
    assert_eq!(plan.bytes.len(), 512);
    assert_eq!(&plan.bytes[..3], &[251, 44, 1]);
    assert_eq!(&plan.bytes[3..303], &value[..]);
    assert!(plan.bytes[303..].iter().all(|b| *b == 0));
    assert_eq!(plan.info.data_length, 303);
    assert_eq!(plan.info.start_block, 0);

    let small = db.prepare_write(&vec![1, 2, 3]).unwrap();
    assert_eq!(&small.bytes[..4], &[3, 1, 2, 3]);
}

#[test]
fn decode_reads_value_before_padding() {
    assert_eq!(decode_stored(&[3, 1, 2, 3, 0, 0, 0], 4).unwrap(), vec![1, 2, 3]);
    assert_eq!(decode_stored(&[3, 1, 2, 3, 0, 0, 0], 5).unwrap_err().kind(), ErrorKind::InvalidData);
    assert_eq!(decode_stored(&[9, 1, 2], 10).unwrap_err().kind(), ErrorKind::InvalidData);
}

#[test]
fn commit_of_stale_plan_is_refused() {
    let mut device = vec![0u8; 4096];
    let mut db = DiskDatabase::new(4096, 512).unwrap();
    let plan = db.prepare_write(&vec![1; 10]).unwrap();
    put(&mut db, &mut device, vec![1], &vec![2; 10]).unwrap();
    assert_eq!(db.commit(vec![3], plan.info).unwrap_err().kind(), ErrorKind::InvalidData);
    assert!(!db.contains(&vec![3]));
}

#[test]
fn long_value_round_trips_with_five_byte_header() {
    let mut device = vec![0u8; 1 << 20];
    let mut db = DiskDatabase::new(1 << 20, 512).unwrap();
    let value: Vec<u8> = (0..70000u32).map(|i| (i % 241) as u8).collect();
    put(&mut db, &mut device, vec![4], &value).unwrap();
    assert_eq!(get(&db, &device, &vec![4]).unwrap(), value);
}
