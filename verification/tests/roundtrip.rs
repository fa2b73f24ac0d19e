use rs_base64::reader::SliceReader;
use rs_base64::{decode, decode_stream, encode, encode_stream};

#[test]
fn test_decode_equals_encode() {
    let original = b"Hello, World!";

    let mut encoded = Vec::new();
    let mut decoded = Vec::new();

    encode_stream(SliceReader::new(original), &mut encoded).unwrap();
    decode_stream(SliceReader::new(&encoded), &mut decoded).unwrap();

    assert_eq!(original.to_vec(), decoded);
}

#[test]
fn decode_undoes_encode_for_every_length_up_to_300() {
    let data: Vec<u8> = (0..300u32).map(|i| (i * 131 + 17) as u8).collect();
    for n in 0..=data.len() {
        let text = encode(&data[..n]).unwrap();
        assert_eq!(data[..n].to_vec(), decode(text.as_bytes()).unwrap());
    }
}

#[test]
fn decode_undoes_encode_for_every_pair_of_bytes() {
    for a in 0..=255u8 {
        for b in [0u8, 1, 0x0f, 0x10, 0x7f, 0x80, 0xf0, 0xff] {
            let text = encode(&[a, b]).unwrap();
            assert_eq!(vec![a, b], decode(text.as_bytes()).unwrap());
            let text = encode(&[b, a, b]).unwrap();
            assert_eq!(vec![b, a, b], decode(text.as_bytes()).unwrap());
        }
        let text = encode(&[a]).unwrap();
        assert_eq!(vec![a], decode(text.as_bytes()).unwrap());
    }
}

#[test]
fn the_rfc_vectors_go_both_ways() {
    let vectors = [
        ("", ""),
        ("f", "Zg=="),
        ("fo", "Zm8="),
        ("foo", "Zm9v"),
        ("foob", "Zm9vYg=="),
        ("fooba", "Zm9vYmE="),
        ("foobar", "Zm9vYmFy"),
    ];
    for (plain, text) in vectors {
        assert_eq!(text, encode(plain.as_bytes()).unwrap());
        assert_eq!(plain.as_bytes().to_vec(), decode(text.as_bytes()).unwrap());
    }
}

#[test]
fn every_byte_value_goes_both_ways() {
    let data: Vec<u8> = (0..=255u8).collect();
    let text = [
        "AAECAwQFBgcICQoLDA0ODxAREhMUFRYXGBkaGxwdHh8gISIjJCUmJygpKissLS4v",
        "MDEyMzQ1Njc4OTo7PD0+P0BBQkNERUZHSElKS0xNTk9QUVJTVFVWV1hZWltcXV5f",
        "YGFiY2RlZmdoaWprbG1ub3BxcnN0dXZ3eHl6e3x9fn+AgYKDhIWGh4iJiouMjY6P",
        "kJGSk5SVlpeYmZqbnJ2en6ChoqOkpaanqKmqq6ytrq+wsbKztLW2t7i5uru8vb6/",
        "wMHCw8TFxsfIycrLzM3Oz9DR0tPU1dbX2Nna29zd3t/g4eLj5OXm5+jp6uvs7e7v",
        "8PHy8/T19vf4+fr7/P3+/w==",
    ]
    .join("");
    assert_eq!(text, encode(&data).unwrap());
    assert_eq!(data, decode(text.as_bytes()).unwrap());
}
