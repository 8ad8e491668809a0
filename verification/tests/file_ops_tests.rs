use visit_recorder::file_ops::File;

#[test]
fn new_file_is_empty_and_named() {
    let f = File::new("f1.txt");
    assert_eq!(f.name(), "f1.txt");
    assert_eq!(f.len(), 0);
}

#[test]
fn new_with_data_copies_the_bytes() {
    let data: Vec<u8> = vec![1, 2, 3, 4, 5];
    let f = File::new_with_data("f1.txt", &data);
    assert_eq!(f.len(), 5);
    assert_eq!(f.name(), "f1.txt");
}

#[test]
fn read_requires_an_open_file() {
    let data: Vec<u8> = vec![1, 2, 3];
    let f = File::new_with_data("f.txt", &data);
    let mut buf = Vec::new();
    assert_eq!(f.read(&mut buf), Err("File is not open".to_string()));
    assert!(buf.is_empty());
}

#[test]
fn read_of_an_empty_file_fails() {
    let mut f = File::new("empty.txt");
    assert_eq!(f.open(), Ok(()));
    let mut buf = Vec::new();
    assert_eq!(f.read(&mut buf), Err("File is empty".to_string()));
    assert!(buf.is_empty());
}

#[test]
fn read_appends_the_data_to_the_buffer() {
    let data: Vec<u8> = vec![1, 2, 3, 4, 5];
    let mut f = File::new_with_data("f.txt", &data);
    assert_eq!(f.open(), Ok(()));
    let mut buf: Vec<u8> = vec![9];
    assert_eq!(f.read(&mut buf), Ok(5));
    assert_eq!(buf, vec![9, 1, 2, 3, 4, 5]);
    assert_eq!(f.close(), Ok(()));
}

#[test]
fn open_read_close_round_trip() {
    let data: Vec<u8> = vec![10, 20];
    let mut f = File::new_with_data("f.txt", &data);
    assert_eq!(f.test_file_open_close(), Ok(()));
    // The file is closed again afterwards, so a read fails.
    let mut buf = Vec::new();
    assert_eq!(f.read(&mut buf), Err("File is not open".to_string()));
}

#[test]
fn open_read_close_fails_on_an_empty_file() {
    let mut f = File::new("empty.txt");
    assert_eq!(f.test_file_open_close(), Err("File is empty".to_string()));
}
