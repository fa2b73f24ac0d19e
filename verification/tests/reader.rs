use rs_base64::{SliceReader, BUFSIZE};

#[test]
fn reader_hands_out_its_data_in_order() {
    let data = b"Hello, World!";
    let mut reader = SliceReader::new(data);
    assert_eq!(b"Hello".to_vec(), reader.read(5).to_vec());
    assert_eq!(b", ".to_vec(), reader.read(2).to_vec());
    assert_eq!(b"".to_vec(), reader.read(0).to_vec());
    assert_eq!(b"World!".to_vec(), reader.read(BUFSIZE).to_vec());
    assert_eq!(b"".to_vec(), reader.read(BUFSIZE).to_vec());
    assert_eq!(b"".to_vec(), reader.read(1).to_vec());
}

#[test]
fn reader_hands_out_no_more_than_its_step() {
    let data = b"foobar";
    let mut reader = SliceReader::with_step(data, 4);
    assert_eq!(b"foob".to_vec(), reader.read(BUFSIZE).to_vec());
    assert_eq!(b"a".to_vec(), reader.read(1).to_vec());
    assert_eq!(b"r".to_vec(), reader.read(BUFSIZE).to_vec());
    assert_eq!(b"".to_vec(), reader.read(BUFSIZE).to_vec());
}

#[test]
fn reader_with_step_zero_hands_out_one_byte_at_a_time() {
    let data = b"fo";
    let mut reader = SliceReader::with_step(data, 0);
    assert_eq!(b"f".to_vec(), reader.read(BUFSIZE).to_vec());
    assert_eq!(b"o".to_vec(), reader.read(BUFSIZE).to_vec());
    assert_eq!(b"".to_vec(), reader.read(BUFSIZE).to_vec());
}

#[test]
fn buffer_size_is_4096() {
    assert_eq!(4096, BUFSIZE);
}
