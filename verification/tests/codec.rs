use base_x::{decode, encode};

const BASE58: &str = "123456789ABCDEFGHJKLMNPQRSTUVWXYZabcdefghijkmnopqrstuvwxyz";

#[test]
fn binary_alphabet_round_trips() {
    let decoded = decode("01", "11111111000000001111111100000000").unwrap();
    assert_eq!(decoded, vec![0xFF, 0x00, 0xFF, 0x00]);
    let encoded = encode("01", &decoded);
    assert_eq!(encoded, "11111111000000001111111100000000");
}

#[test]
fn bytes_round_trip_base58() {
    let input: &[u8] = &[0x00, 0x00, 0xDE, 0xAD, 0xBE, 0xEF, 0x00, 0x42];
    let encoded = encode(BASE58, input);
    let decoded = decode(BASE58, &encoded).unwrap();
    assert_eq!(decoded, input);
}

#[test]
fn text_round_trips_base58() {
    let text = "1114D5coDKpz5gJcQBtaYjH6LHM";
    let decoded = decode(BASE58, text).unwrap();
    let encoded = encode(BASE58, &decoded);
    assert_eq!(encoded, text);
}

#[test]
fn byte_alphabet_agrees_with_str_alphabet() {
    let input: &[u8] = &[0, 7, 0, 255, 3];
    let as_str = encode(BASE58, input);
    let as_bytes = encode(BASE58.as_bytes(), input);
    assert_eq!(as_str, as_bytes);
    assert_eq!(decode(BASE58.as_bytes(), &as_str).unwrap(), input);
}

#[test]
fn empty_input_encodes_to_empty_text() {
    assert_eq!(encode(BASE58, &[]), "");
    assert_eq!(decode(BASE58, "").unwrap(), Vec::<u8>::new());
}

#[test]
fn all_zero_input_encodes_to_zero_symbols() {
    assert_eq!(encode(BASE58, &[0, 0, 0, 0, 0]), "11111");
    assert_eq!(encode("01", &[0, 0, 0]), "000");
    assert_eq!(decode(BASE58, "11111").unwrap(), vec![0u8; 5]);
}

#[test]
fn leading_zero_bytes_are_preserved_exactly() {
    let input: &[u8] = &[0, 0, 0, 9, 1];
    let encoded = encode(BASE58, input);
    assert!(encoded.starts_with("111"));
    assert!(!encoded.starts_with("1111"));
    assert_eq!(decode(BASE58, &encoded).unwrap(), input);
}

#[test]
fn invalid_symbol_fails_the_decode() {
    assert!(decode(BASE58, "11l11").is_err());
    assert!(decode(BASE58, "Hello World").is_err());
    assert!(decode("01", "0102").is_err());
    assert!(decode("01", "01\u{1F600}01").is_err());
}

#[test]
fn base16_concrete_value() {
    let alphabet = "0123456789abcdef";
    assert_eq!(encode(alphabet, &[0xDE, 0xAD, 0xBE, 0xEF]), "deadbeef");
    assert_eq!(decode(alphabet, "deadbeef").unwrap(), vec![0xDE, 0xAD, 0xBE, 0xEF]);
}

#[test]
fn no_std_works() {
    //todo: convert test cases into pure rust
    #[allow(dead_code)]
    struct TestCases<'a> {
        alphabet: &'a str,
        // src, output
        valids: &'a [(&'a [u8], &'a str)],
        invalids: &'a [&'a [u8]],
    }
}
