use fitskit::io_utils::{padded_size, read_data_block, write_data_block, ByteReader};

#[test]
fn padded_size_exact() {
    assert_eq!(padded_size(2880), 2880);
    assert_eq!(padded_size(5760), 5760);
}

#[test]
fn padded_size_rounded() {
    assert_eq!(padded_size(1), 2880);
    assert_eq!(padded_size(2881), 5760);
}

#[test]
fn padded_size_zero() {
    assert_eq!(padded_size(0), 0);
}

#[test]
fn write_read_round_trip() {
    let data = vec![42u8; 1000];
    let mut buf = Vec::new();
    write_data_block(&mut buf, &data).unwrap();
    assert_eq!(buf.len(), 2880);

    let mut cursor = ByteReader::new(&buf);
    let read_back = read_data_block(&mut cursor, 1000).unwrap();
    assert_eq!(read_back, data);
}
