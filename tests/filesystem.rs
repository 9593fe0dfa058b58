use chunkfs::base::HashMapBase;
use chunkfs::{
    create_cdc_filesystem, ErrorKind, FSChunker, FileSystem, FileSystemBuilder, IterableDatabase,
    LeapChunker, SimpleHasher, MB, SEG_SIZE,
};

#[test]
fn write_read_complete_test() {
    let mut fs = FileSystem::new(LeapChunker::default(), SimpleHasher, HashMapBase::default());

    let mut handle = fs.create_file("file".to_string()).unwrap();
    fs.write_to_file(&mut handle, &[1; 1024 * 1024]).unwrap();
    fs.write_to_file(&mut handle, &[1; 1024 * 1024]).unwrap();

    let measurements = fs.close_file(handle).unwrap();
    println!("{:?}", measurements);

    let handle = fs.open_file("file").unwrap();
    let read = fs.read_file_complete(&handle).unwrap();
    assert_eq!(read.len(), 1024 * 1024 * 2);
    assert_eq!(read, [1; 1024 * 1024 * 2]);
}

#[test]
fn write_read_blocks_test() {
    let mut fs = FileSystemBuilder::new()
        .with_chunker(FSChunker::new(4096))
        .with_hasher(SimpleHasher)
        .with_base(HashMapBase::default())
        .build()
        .unwrap();

    let mut handle = fs.create_file("file".to_string()).unwrap();
    fs.write_to_file(&mut handle, &[1; 1024 * 1024]).unwrap();
    fs.write_to_file(&mut handle, &[2; 1024 * 1024]).unwrap();
    fs.write_to_file(&mut handle, &[3; 1024 * 1024]).unwrap();
    let measurements = fs.close_file(handle).unwrap();
    println!("{:?}", measurements);

    let mut handle = fs.open_file("file").unwrap();
    assert_eq!(
        fs.read_from_file(&mut handle).unwrap(),
        vec![1; 1024 * 1024]
    );
    assert_eq!(
        fs.read_from_file(&mut handle).unwrap(),
        vec![2; 1024 * 1024]
    );
    assert_eq!(
        fs.read_from_file(&mut handle).unwrap(),
        vec![3; 1024 * 1024]
    );
}

#[test]
fn identical_fixed_chunks_are_stored_once() {
    let mut fs = create_cdc_filesystem(FSChunker::new(4096), SimpleHasher, HashMapBase::default());
    let mut handle = fs.create_file("file".to_string()).unwrap();
    fs.write_to_file(&mut handle, &[1; MB]).unwrap();
    fs.write_to_file(&mut handle, &[2; MB]).unwrap();
    fs.write_to_file(&mut handle, &[3; MB]).unwrap();
    fs.close_file(handle).unwrap();
    assert_eq!(fs.base().keys().len(), 3);
}

#[test]
fn same_payload_in_second_file_adds_no_entries() {
    let mut fs = create_cdc_filesystem(FSChunker::new(4096), SimpleHasher, HashMapBase::default());
    let payload: Vec<u8> = (0..3 * 4096u32).map(|i| (i % 251) as u8).collect();
    let mut a = fs.create_file("a".to_string()).unwrap();
    fs.write_to_file(&mut a, &payload).unwrap();
    fs.write_to_file(&mut a, &payload).unwrap();
    fs.close_file(a).unwrap();
    let after_first = fs.base().keys().len();
    assert!(after_first <= 3);
    let mut b = fs.create_file("b".to_string()).unwrap();
    fs.write_to_file(&mut b, &payload).unwrap();
    fs.close_file(b).unwrap();
    assert_eq!(fs.base().keys().len(), after_first);
}

#[test]
fn second_create_with_same_name_fails() {
    let mut fs = create_cdc_filesystem(FSChunker::new(4096), SimpleHasher, HashMapBase::default());
    assert!(fs.create_file("a".to_string()).is_ok());
    assert_eq!(
        fs.create_file("a".to_string()).unwrap_err().kind(),
        ErrorKind::AlreadyExists
    );
}

#[test]
fn open_missing_file_is_not_found() {
    let fs = create_cdc_filesystem(FSChunker::new(4096), SimpleHasher, HashMapBase::default());
    assert_eq!(fs.open_file("nope").unwrap_err().kind(), ErrorKind::NotFound);
}

#[test]
fn block_reads_stop_at_end_of_file() {
    let mut fs = create_cdc_filesystem(FSChunker::new(4096), SimpleHasher, HashMapBase::default());
    let data: Vec<u8> = (0..MB + MB / 2).map(|i| (i % 253) as u8).collect();
    let mut handle = fs.create_file("file".to_string()).unwrap();
    fs.write_to_file(&mut handle, &data).unwrap();
    fs.close_file(handle).unwrap();

    let mut handle = fs.open_file("file").unwrap();
    let first = fs.read_from_file(&mut handle).unwrap();
    let second = fs.read_from_file(&mut handle).unwrap();
    let third = fs.read_from_file(&mut handle).unwrap();
    assert_eq!(first.len(), SEG_SIZE);
    assert_eq!(second.len(), MB / 2);
    assert_eq!(third.len(), 0);
    assert_eq!([first, second].concat(), data);
    assert_eq!(handle.offset(), MB + MB / 2);
}

#[test]
fn round_trip_of_uneven_writes() {
    let mut fs = create_cdc_filesystem(FSChunker::new(1000), SimpleHasher, HashMapBase::default());
    let parts: Vec<Vec<u8>> = vec![
        (0..1500u32).map(|i| (i % 7) as u8).collect(),
        vec![9; 10],
        (0..2345u32).map(|i| (i % 13) as u8).collect(),
        vec![],
        vec![5; 999],
    ];
    let mut handle = fs.create_file("f".to_string()).unwrap();
    for p in &parts {
        fs.write_to_file(&mut handle, p).unwrap();
    }
    fs.close_file(handle).unwrap();
    let handle = fs.open_file("f").unwrap();
    assert_eq!(fs.read_file_complete(&handle).unwrap(), parts.concat());
}

#[test]
fn unclosed_tail_is_not_in_the_file_yet() {
    let mut fs = create_cdc_filesystem(FSChunker::new(4096), SimpleHasher, HashMapBase::default());
    let mut handle = fs.create_file("f".to_string()).unwrap();
    fs.write_to_file(&mut handle, &[7; 5000]).unwrap();
    assert_eq!(handle.offset(), 4096);
    let reader = fs.open_file("f").unwrap();
    assert_eq!(fs.read_file_complete(&reader).unwrap().len(), 4096);
    fs.close_file(handle).unwrap();
    assert_eq!(fs.read_file_complete(&reader).unwrap(), vec![7; 5000]);
}

#[test]
fn builder_without_parts_fails() {
    let b: FileSystemBuilder<FSChunker, SimpleHasher, HashMapBase> =
        FileSystemBuilder::new().with_hasher(SimpleHasher);
    assert_eq!(b.build().err().unwrap().kind(), ErrorKind::NotFound);
}

#[test]
fn empty_file_reads_back_empty() {
    let mut fs = create_cdc_filesystem(FSChunker::new(4096), SimpleHasher, HashMapBase::default());
    let mut handle = fs.create_file("e".to_string()).unwrap();
    fs.write_to_file(&mut handle, &[]).unwrap();
    fs.close_file(handle).unwrap();
    let mut handle = fs.open_file("e").unwrap();
    assert!(fs.read_file_complete(&handle).unwrap().is_empty());
    assert!(fs.read_from_file(&mut handle).unwrap().is_empty());
}
