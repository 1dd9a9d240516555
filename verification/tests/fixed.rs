use base_x::{decode_mut, encode_mut};

const BASE58: &str = "123456789ABCDEFGHJKLMNPQRSTUVWXYZabcdefghijkmnopqrstuvwxyz";

#[test]
fn fixed_binary_round_trip() {
    let input: [u8; 4] = [0xFF, 0x00, 0xFF, 0x00];
    let mut text = [0u8; 32];
    encode_mut::<_, 1>("01", &mut text, &input).unwrap();
    assert_eq!(&text, "11111111000000001111111100000000".as_bytes());

    let mut back = [0u8; 4];
    decode_mut::<_, 1>("01", &mut back, "11111111000000001111111100000000").unwrap();
    assert_eq!(back, input);
}

#[test]
fn fixed_base58_round_trip() {
    let input: [u8; 8] = [0x00, 0x00, 0xDE, 0xAD, 0xBE, 0xEF, 0x00, 0x42];
    let encoded = base_x::encode(BASE58, &input);
    let mut text = vec![0u8; encoded.len()];
    encode_mut::<_, 2>(BASE58, &mut text, &input).unwrap();
    assert_eq!(text, encoded.as_bytes());

    let mut back = [0u8; 8];
    decode_mut::<_, 2>(BASE58, &mut back, &encoded).unwrap();
    assert_eq!(back, input);
}

#[test]
fn fixed_byte_alphabet_round_trip() {
    let input: [u8; 3] = [0, 7, 200];
    let encoded = base_x::encode(BASE58.as_bytes(), &input);
    let mut text = vec![0u8; encoded.len()];
    encode_mut::<_, 1>(BASE58.as_bytes(), &mut text, &input).unwrap();
    assert_eq!(text, encoded.as_bytes());

    let mut back = [0u8; 3];
    decode_mut::<_, 1>(BASE58.as_bytes(), &mut back, &encoded).unwrap();
    assert_eq!(back, input);
}

#[test]
fn undersized_backing_fails_without_corruption() {
    // eight bytes of value need two chunks; one is not enough
    let text = base_x::encode(BASE58, &[0xDE, 0xAD, 0xBE, 0xEF, 0x01, 0x02, 0x03, 0x04]);
    let mut out = [7u8; 8];
    let r = decode_mut::<_, 1>(BASE58, &mut out, &text);
    assert!(r.is_err());
    assert_eq!(out, [7u8; 8]);
}

#[test]
fn undersized_output_fails_without_corruption() {
    let mut out = [9u8; 2];
    let r = decode_mut::<_, 2>("01", &mut out, "11111111000000001111111100000000");
    assert!(r.is_err());
    assert_eq!(out, [9u8; 2]);
}

#[test]
fn oversized_input_fails_encode_mut() {
    // five input bytes need two chunks; one is not enough
    let input: [u8; 5] = [1, 2, 3, 4, 5];
    let mut text = [0u8; 64];
    assert_eq!(encode_mut::<_, 1>("01", &mut text, &input), Err(()));
    assert_eq!(text, [0u8; 64]);
}

#[test]
fn wrong_buffer_length_fails_encode_mut() {
    let input: [u8; 4] = [0xFF, 0x00, 0xFF, 0x00];
    let mut text = [0u8; 31];
    assert_eq!(encode_mut::<_, 1>("01", &mut text, &input), Err(()));
}
