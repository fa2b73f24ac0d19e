use rs_base64::reader::SliceReader;
use rs_base64::{
    byte_to_char, encode, encode_remainder, encode_stream, split_chunk, EncodeError, Encoder,
};

#[test]
fn test_byte_to_char() {
    assert_eq!('A', byte_to_char(0));
    assert_eq!('Z', byte_to_char(25));
    assert_eq!('a', byte_to_char(26));
    assert_eq!('z', byte_to_char(51));
    assert_eq!('0', byte_to_char(52));
    assert_eq!('9', byte_to_char(61));
    assert_eq!('+', byte_to_char(62));
    assert_eq!('/', byte_to_char(63));
}

#[test]
fn test_split_chunk() {
    let chunk = [b'M', b'a', b'n'];
    assert_eq!([19, 22, 5, 46], split_chunk(&chunk));

    let chunk = [0, 0, 0];
    assert_eq!([0, 0, 0, 0], split_chunk(&chunk));

    let chunk = [255, 255, 255];
    assert_eq!([63, 63, 63, 63], split_chunk(&chunk));
}

#[test]
fn test_encode_remainder() {
    let remainder = Vec::from([0]);
    assert_eq!("AA==", encode_remainder(remainder));

    let remainder = Vec::from([0, 0]);
    assert_eq!("AAA=", encode_remainder(remainder));
}

#[test]
fn test_encode() {
    // see https://datatracker.ietf.org/doc/html/rfc4648#section-10
    assert_eq!("", encode("".as_bytes()).unwrap());
    assert_eq!("Zg==", encode("f".as_bytes()).unwrap());
    assert_eq!("Zm8=", encode("fo".as_bytes()).unwrap());
    assert_eq!("Zm9v", encode("foo".as_bytes()).unwrap());
    assert_eq!("Zm9vYg==", encode("foob".as_bytes()).unwrap());
    assert_eq!("Zm9vYmE=", encode("fooba".as_bytes()).unwrap());
    assert_eq!("Zm9vYmFy", encode("foobar".as_bytes()).unwrap());
}

#[test]
fn encode_remainder_of_nothing_is_empty() {
    assert_eq!("", encode_remainder(Vec::new()));
}

#[test]
fn encode_remainder_keeps_the_bits_of_its_bytes() {
    assert_eq!("/w==", encode_remainder(vec![0xff]));
    assert_eq!("//8=", encode_remainder(vec![0xff, 0xff]));
    assert_eq!("Zm8=", encode_remainder(vec![b'f', b'o']));
}

#[test]
fn encode_uses_every_symbol_of_the_alphabet() {
    let mut bytes = Vec::new();
    let mut v: u32 = 0;
    while v < 64 {
        let w = (v << 18) | (v << 12) | (v << 6) | v;
        bytes.push((w >> 16) as u8);
        bytes.push((w >> 8) as u8);
        bytes.push(w as u8);
        v += 1;
    }
    let text = encode(&bytes).unwrap();
    let alphabet = "ABCDEFGHIJKLMNOPQRSTUVWXYZabcdefghijklmnopqrstuvwxyz0123456789+/";
    let mut expected = String::new();
    for c in alphabet.chars() {
        for _ in 0..4 {
            expected.push(c);
        }
    }
    assert_eq!(expected, text);
}

#[test]
fn encode_pads_by_the_length_of_the_input() {
    let data: Vec<u8> = (0..=255u8).collect();
    for n in 0..data.len() {
        let text = encode(&data[..n]).unwrap();
        assert_eq!(4 * ((n + 2) / 3), text.len());
        let pads = text.bytes().filter(|b| *b == b'=').count();
        let expected = match n % 3 {
            0 => 0,
            1 => 2,
            _ => 1,
        };
        assert_eq!(expected, pads);
        assert!(text.bytes().rev().take(pads).all(|b| b == b'='));
    }
}

#[test]
fn encode_stream_appends_to_what_the_writer_holds() {
    let mut out = b"x:".to_vec();
    encode_stream(SliceReader::new(b"foobar"), &mut out).unwrap();
    assert_eq!(b"x:Zm9vYmFy".to_vec(), out);
}

#[test]
fn encode_stream_gives_the_same_text_for_every_step() {
    let data: Vec<u8> = (0..1000u32).map(|i| (i * 7 + 3) as u8).collect();
    let mut bulk = Vec::new();
    encode_stream(SliceReader::new(&data), &mut bulk).unwrap();
    for step in [0usize, 1, 2, 3, 4, 5, 7, 64, 4096, 5000] {
        let mut out = Vec::new();
        encode_stream(SliceReader::with_step(&data, step), &mut out).unwrap();
        assert_eq!(bulk, out);
    }
}

#[test]
fn encode_stream_handles_more_than_one_buffer() {
    let data = vec![b'f'; 3 * 4096 + 1];
    let mut out = Vec::new();
    encode_stream(SliceReader::new(&data), &mut out).unwrap();
    assert_eq!(4 * 4096 + 4, out.len());
    assert_eq!(b"ZmZm".to_vec(), out[..4].to_vec());
    assert_eq!(b"Zg==".to_vec(), out[4 * 4096..].to_vec());
}

#[test]
fn encoder_fed_byte_by_byte_equals_bulk() {
    let data = b"Hello, World!";
    let mut bulk = Vec::new();
    let mut one = Encoder::new();
    one.update(data, &mut bulk);
    one.finish(&mut bulk);

    let mut out = Vec::new();
    let mut encoder = Encoder::new();
    for b in data.iter() {
        encoder.update(&[*b], &mut out);
    }
    encoder.finish(&mut out);

    assert_eq!(bulk, out);
    assert_eq!(b"SGVsbG8sIFdvcmxkIQ==".to_vec(), out);
}

#[test]
fn encoder_gives_out_whole_groups_only() {
    let mut out = Vec::new();
    let mut encoder = Encoder::new();
    encoder.update(b"fo", &mut out);
    assert_eq!(b"".to_vec(), out);
    encoder.update(b"ob", &mut out);
    assert_eq!(b"Zm9v".to_vec(), out);
    encoder.update(b"", &mut out);
    assert_eq!(b"Zm9v".to_vec(), out);
    encoder.finish(&mut out);
    assert_eq!(b"Zm9vYg==".to_vec(), out);
}

#[test]
fn encoding_fails_only_with_the_error_of_a_stream() {
    let e = EncodeError::IoFailure(std::io::Error::new(std::io::ErrorKind::WriteZero, "full"));
    match e {
        EncodeError::IoFailure(inner) => assert_eq!(std::io::ErrorKind::WriteZero, inner.kind()),
    }
    assert!(encode(&[0u8; 100]).is_ok());
}
