use rs_base64::reader::SliceReader;
use rs_base64::{coerce_chunk, decode, decode_byte, decode_stream, DecodeError, Decoder};

#[test]
fn test_decode_byte() {
    assert_eq!(0, decode_byte(b'A').unwrap());
    assert_eq!(25, decode_byte(b'Z').unwrap());
    assert_eq!(26, decode_byte(b'a').unwrap());
    assert_eq!(51, decode_byte(b'z').unwrap());
    assert_eq!(52, decode_byte(b'0').unwrap());
    assert_eq!(61, decode_byte(b'9').unwrap());
    assert_eq!(62, decode_byte(b'+').unwrap());
    assert_eq!(63, decode_byte(b'/').unwrap());
}

#[test]
fn test_coerce_chunk() {
    assert_eq!([b'M', b'a', b'n'], coerce_chunk([19, 22, 5, 46]));
    assert_eq!([0, 0, 0], coerce_chunk([0, 0, 0, 0]));
    assert_eq!([255, 255, 255], coerce_chunk([63, 63, 63, 63]))
}

#[test]
fn test_decode() {
    // see https://datatracker.ietf.org/doc/html/rfc4648#section-10
    assert_eq!(b"".to_vec(), decode("".as_bytes()).unwrap());
    assert_eq!(b"f".to_vec(), decode("Zg==".as_bytes()).unwrap());
    assert_eq!(b"fo".to_vec(), decode("Zm8=".as_bytes()).unwrap());
    assert_eq!(b"foo".to_vec(), decode("Zm9v".as_bytes()).unwrap());
    assert_eq!(b"foob".to_vec(), decode("Zm9vYg==".as_bytes()).unwrap());
    assert_eq!(b"fooba".to_vec(), decode("Zm9vYmE=".as_bytes()).unwrap());
    assert_eq!(b"foobar".to_vec(), decode("Zm9vYmFy".as_bytes()).unwrap());
}

#[test]
fn decode_byte_refuses_what_is_no_symbol() {
    let mut c: u16 = 0;
    let mut accepted = 0;
    while c < 256 {
        let b = c as u8;
        let known = b.is_ascii_alphanumeric() || b == b'+' || b == b'/';
        match decode_byte(b) {
            Ok(v) => {
                assert!(known);
                assert!(v < 64);
                accepted += 1;
            }
            Err(e) => {
                assert!(!known);
                assert!(matches!(e, DecodeError::InvalidCharacter));
            }
        }
        c += 1;
    }
    assert_eq!(64, accepted);
    assert!(matches!(decode_byte(b'='), Err(DecodeError::InvalidCharacter)));
}

#[test]
fn coerce_chunk_drops_the_bits_shifted_out() {
    assert_eq!([0xff, 0xf0, 0x00], coerce_chunk([0xff, 0xff, 0, 0]));
    assert_eq!([0x04, 0x10, 0x40], coerce_chunk([1, 1, 1, 0]));
}

#[test]
fn decode_refuses_a_byte_outside_the_alphabet_wherever_it_stands() {
    for text in [
        "Zm9v\n", "\nZm9v", "Zm 9v", "Zm9v YmFy", "Zg=\n", "Zg==\n", "*m9v", "Zm9\u{7f}", "Z\r", "Zg=!",
        "====\t", "=AAA\nAAA", "Zm9vYmF-", "Zm9vYmF_",
    ] {
        assert!(
            matches!(decode(text.as_bytes()), Err(DecodeError::InvalidCharacter)),
            "{:?}",
            text
        );
    }
    assert!(matches!(decode(&[b'Z', b'g', 0x80, b'=']), Err(DecodeError::InvalidCharacter)));
    assert!(matches!(decode(&[0]), Err(DecodeError::InvalidCharacter)));
}

#[test]
fn decode_refuses_a_length_that_is_no_multiple_of_four() {
    for text in ["Z", "Zg", "Zg=", "Zm9vY", "Zm9vYg", "Zm9vYg=", "=", "==", "===", "Zg==Z", "=AAAA"] {
        assert!(matches!(decode(text.as_bytes()), Err(DecodeError::InvalidLength)), "{:?}", text);
    }
}

#[test]
fn decode_refuses_padding_out_of_place() {
    for text in [
        "====", "Z===", "=g==", "Zg=A", "Z=AA", "=m9v", "Zg==Zm8=", "Zm8=Zm9v", "Zm9vZg==Zm9v",
        "Zm=vYmFy", "Zg==AAAA", "AA==AA==",
    ] {
        assert!(matches!(decode(text.as_bytes()), Err(DecodeError::MalformedPadding)), "{:?}", text);
    }
}

#[test]
fn decode_takes_padded_groups_whose_spare_bits_are_set() {
    assert_eq!(b"f".to_vec(), decode(b"Zh==").unwrap());
    assert_eq!(b"fo".to_vec(), decode(b"Zm9=").unwrap());
}

#[test]
fn decode_stream_appends_to_what_the_writer_holds() {
    let mut out = b"x:".to_vec();
    decode_stream(SliceReader::new(b"Zm9vYmE="), &mut out).unwrap();
    assert_eq!(b"x:fooba".to_vec(), out);
}

#[test]
fn decode_stream_leaves_the_sound_groups_when_it_fails() {
    let mut out = Vec::new();
    let r = decode_stream(SliceReader::new(b"Zm9vYmFyZg\n="), &mut out);
    assert!(matches!(r, Err(DecodeError::InvalidCharacter)));
    assert_eq!(b"foobar".to_vec(), out);

    let mut out = Vec::new();
    let r = decode_stream(SliceReader::new(b"Zm9vYmE=Zm9v"), &mut out);
    assert!(matches!(r, Err(DecodeError::MalformedPadding)));
    assert_eq!(b"foo".to_vec(), out);

    let mut out = Vec::new();
    let r = decode_stream(SliceReader::new(b"Zm9vYmFyZ"), &mut out);
    assert!(matches!(r, Err(DecodeError::InvalidLength)));
    assert_eq!(b"foobar".to_vec(), out);
}

#[test]
fn decode_stream_gives_the_same_for_every_step() {
    let texts: [&[u8]; 8] = [
        b"SGVsbG8sIFdvcmxkIQ==",
        b"Zm9vYmE=",
        b"Zm9vYmFy",
        b"Zm9vYmFyZg\n=",
        b"Zm9vYmE=Zm9v",
        b"Zm9vYmFyZ",
        b"Zm9v=mFyZm9v",
        b"",
    ];
    for text in texts {
        let mut bulk = Vec::new();
        let expected = decode_stream(SliceReader::new(text), &mut bulk);
        for step in [1usize, 2, 3, 4, 5, 7] {
            let mut out = Vec::new();
            let r = decode_stream(SliceReader::with_step(text, step), &mut out);
            assert_eq!(format!("{:?}", expected), format!("{:?}", r));
            assert_eq!(bulk, out);
        }
    }
}

#[test]
fn decoder_fed_symbol_by_symbol_equals_bulk() {
    let text = b"SGVsbG8sIFdvcmxkIQ==";
    let mut out = Vec::new();
    let mut decoder = Decoder::new();
    for c in text.iter() {
        decoder.update(&[*c], &mut out).unwrap();
    }
    decoder.finish(&mut out).unwrap();
    assert_eq!(b"Hello, World!".to_vec(), out);
    assert_eq!(decode(text).unwrap(), out);
}

#[test]
fn decoder_keeps_a_padded_group_back_until_the_end() {
    let mut out = Vec::new();
    let mut decoder = Decoder::new();
    decoder.update(b"Zm9vYm", &mut out).unwrap();
    assert_eq!(b"foo".to_vec(), out);
    decoder.update(b"E=", &mut out).unwrap();
    assert_eq!(b"foo".to_vec(), out);
    decoder.finish(&mut out).unwrap();
    assert_eq!(b"fooba".to_vec(), out);
}

#[test]
fn decoder_fails_at_once_on_an_invalid_byte_and_stays_failed() {
    let mut out = Vec::new();
    let mut decoder = Decoder::new();
    decoder.update(b"Zm9v", &mut out).unwrap();
    assert!(matches!(decoder.update(b"Zm 9", &mut out), Err(DecodeError::InvalidCharacter)));
    assert!(matches!(decoder.update(b"Zm9v", &mut out), Err(DecodeError::InvalidCharacter)));
    assert!(matches!(decoder.finish(&mut out), Err(DecodeError::InvalidCharacter)));
    assert_eq!(b"foo".to_vec(), out);
}

#[test]
fn decoder_reports_padding_out_of_place_only_at_the_end() {
    let mut out = Vec::new();
    let mut decoder = Decoder::new();
    decoder.update(b"Zg==", &mut out).unwrap();
    decoder.update(b"Zm9v", &mut out).unwrap();
    assert!(matches!(decoder.finish(&mut out), Err(DecodeError::MalformedPadding)));
    assert_eq!(b"".to_vec(), out);
}

#[test]
fn io_failure_carries_the_error_of_the_stream() {
    let e = DecodeError::IoFailure(std::io::Error::new(std::io::ErrorKind::BrokenPipe, "gone"));
    match e {
        DecodeError::IoFailure(inner) => assert_eq!(std::io::ErrorKind::BrokenPipe, inner.kind()),
        _ => panic!("another variant"),
    }
}

#[test]
fn decode_stream_handles_more_than_one_buffer() {
    let text = "Zm9v".repeat(3000) + "Zg==";
    let mut out = Vec::new();
    decode_stream(SliceReader::new(text.as_bytes()), &mut out).unwrap();
    assert_eq!("foo".repeat(3000) + "f", String::from_utf8(out).unwrap());

    let bad = "Zm9v".repeat(3000) + "Zg=\n";
    let mut out = Vec::new();
    let r = decode_stream(SliceReader::with_step(bad.as_bytes(), 4095), &mut out);
    assert!(matches!(r, Err(DecodeError::InvalidCharacter)));
    assert_eq!("foo".repeat(3000), String::from_utf8(out).unwrap());
}
