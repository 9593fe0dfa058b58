use chunkfs::file_layer::FileLayer;
use chunkfs::ErrorKind;

#[test]
fn file_layer_create_file() {
    let mut fl = FileLayer::new();
    let name = "hello".to_string();
    fl.create(name.clone()).unwrap();

    assert_eq!(fl.find_file(&name).unwrap().name(), "hello");
    assert!(fl.find_file(&name).unwrap().spans().is_empty());
}

#[test]
fn cant_create_two_files_with_same_name() {
    let mut fl = FileLayer::new();
    fl.create("hello".to_string()).unwrap();

    let result = fl.create("hello".to_string());
    assert!(result.is_err());
    assert_eq!(result.unwrap_err().kind(), ErrorKind::AlreadyExists);
}
