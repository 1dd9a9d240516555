use base_x::{decode, encode};

#[test]
fn is_unicode_sound() {
    // binary, kinda...
    let alphabet = "😐😀";

    let encoded = encode(alphabet, &[0xff, 0x00, 0xff, 0x00]);
    let decoded = decode(alphabet, &encoded).unwrap();

    assert_eq!(
        encoded,
        "😀😀😀😀😀😀😀😀😐😐😐😐😐😐😐😐😀😀😀😀😀😀😀😀😐😐😐😐😐😐😐😐"
    );
    assert_eq!(decoded, &[0xff, 0x00, 0xff, 0x00]);
}

#[test]
fn unicode_leading_zero_symbols_round_trip() {
    let alphabet = "😐😀";
    let encoded = encode(alphabet, &[0x00, 0x05]);
    assert!(encoded.starts_with('😐'));
    assert_eq!(decode(alphabet, &encoded).unwrap(), vec![0x00, 0x05]);
}

#[test]
fn unicode_invalid_symbol_fails() {
    assert!(decode("😐😀", "😐😀x😀").is_err());
}
