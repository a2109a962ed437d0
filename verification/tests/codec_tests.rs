use base62::decode;
use base62::encode;
use base62::DecodeError;

fn encoder_roundtrips(buf: &[u8]) {
    assert_eq!(&decode(&encode(buf)).unwrap(), buf);
}

#[test]
fn test_encoder_test_cases() {
    let cases: &[&[u8]] = &[&[], &[0, 0, 0], &[255, 239]];
    for case in cases {
        encoder_roundtrips(case);
    }
}

#[test]
fn test_encoder_roundtrips() {
    // A deterministic sweep of byte vectors of many lengths and contents.
    for len in 0..48usize {
        for salt in 0..4u16 {
            let buf: Vec<u8> = (0..len)
                .map(|i| ((i as u16).wrapping_mul(37 + salt * 11) ^ (salt * 97)) as u8)
                .collect();
            encoder_roundtrips(&buf);
        }
    }
    encoder_roundtrips(&[0xff; 40]);
    encoder_roundtrips(&[0x00; 40]);
    encoder_roundtrips(&[0x1e; 40]);
}

#[test]
fn test_empty_round_trip() {
    assert_eq!(encode(&[]), "");
    assert_eq!(decode(""), Ok(vec![]));
}

#[test]
fn test_exact_encodings() {
    assert_eq!(encode(&[0, 0, 0]), "0000");
    assert_eq!(encode(&[255, 239]), "VVx");
    assert_eq!(encode(&[0]), "00");
    assert_eq!(decode("VVx"), Ok(vec![255, 239]));
    assert_eq!(decode("0000"), Ok(vec![0, 0, 0]));
}

#[test]
fn test_every_single_byte_round_trips() {
    for v in 0..=255u8 {
        assert_eq!(decode(&encode(&[v])).unwrap(), vec![v]);
    }
}

#[test]
fn test_invalid_character_at_start() {
    assert_eq!(decode("!"), Err(DecodeError::InvalidByte(0, b'!')));
}

#[test]
fn test_invalid_character_position() {
    assert_eq!(decode("AB!CD"), Err(DecodeError::InvalidByte(2, b'!')));
    assert_eq!(decode("abc."), Err(DecodeError::InvalidByte(3, b'.')));
    assert_eq!(decode("0123 456"), Err(DecodeError::InvalidByte(4, b' ')));
}

#[test]
fn test_first_invalid_character_wins() {
    assert_eq!(decode("a!b?c"), Err(DecodeError::InvalidByte(1, b'!')));
}

#[test]
fn test_alphabet_closure() {
    for len in 0..32usize {
        let buf: Vec<u8> = (0..len).map(|i| (i * 151 % 256) as u8).collect();
        let text = encode(&buf);
        assert!(text.chars().all(|c| c.is_ascii_alphanumeric()));
    }
}

#[test]
fn test_determinism() {
    let buf = [7u8, 0, 255, 31, 30, 62, 63, 128];
    assert_eq!(encode(&buf), encode(&buf));
    let text = encode(&buf);
    assert_eq!(decode(&text), decode(&text));
}

#[test]
fn test_length_bounds() {
    for len in 0..64usize {
        let buf: Vec<u8> = (0..len).map(|i| (i * 53 % 256) as u8).collect();
        let text = encode(&buf);
        assert!(text.len() <= (8 * len + 4) / 5);
        let back = decode(&text).unwrap();
        assert!(back.len() <= (6 * text.len() + 7) / 8);
    }
}

#[test]
fn test_trailing_symbol_always_yields_byte() {
    // Text that no encode call produced still decodes: the final symbol is
    // flushed into one byte, however few bits it carries.
    assert_eq!(decode("z"), Ok(vec![61]));
}
