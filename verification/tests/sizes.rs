use base_x::{decode, encode, gen_backing_size, gen_decoded_size, gen_encoded_size};

#[test]
fn gen_works() {
    let input = [
        0xac, 0x77, 0x81, 0x4b, 0xa4, 0xcd, 0xb7, 0xb8, 0x29, 0x9d, 0x6e, 0x38, 0x94, 0x40,
        0x53, 0xbf, 0x01, 0x96, 0x2b, 0xb3, 0xdd, 0x7b, 0x39, 0x81, 0x98, 0xcc, 0x4d, 0x43,
        0x9d, 0x95, 0x1a, 0xdd, 0xb8, 0x49, 0x21, 0xeb, 0xf3, 0x2a, 0x60, 0xbc, 0xd8, 0x4f,
        0xc4, 0xe6, 0x01, 0x59, 0x90, 0x1b, 0x41, 0xec, 0x67, 0x90, 0x30, 0x96, 0xfe, 0x20,
        0x43, 0xa9, 0xf3, 0xb7, 0x97, 0xfe, 0xce, 0x7e, 0x40, 0x67, 0xec, 0xeb, 0x17, 0xa8,
        0x0d, 0xd4, 0xf7, 0xe9, 0x3d, 0xa8, 0x9f, 0x87, 0x22, 0xbc, 0x69, 0xd4, 0x19, 0x50,
        0xb2, 0x99, 0x94, 0x4b, 0xd1, 0x45, 0x68, 0x96, 0xbf, 0x6a, 0x8d, 0x42, 0x3b, 0x6c,
        0x03, 0xc5, 0xa3, 0x78, 0x80, 0x1f, 0x50, 0x8b, 0xca, 0x99, 0x9d, 0x82, 0x19, 0x82,
        0x05, 0x47, 0x9c, 0x21, 0x5d, 0x24, 0xb3, 0x94, 0x9d, 0x1a, 0x89, 0xe6, 0x27, 0x48,
        0x00, 0x15, 0xbb, 0xcc, 0x6f, 0x37, 0x66, 0x13, 0x3f, 0x21, 0x10, 0xf2, 0x58, 0x51,
        0xb0, 0x9d, 0x55, 0x83, 0x41, 0xda, 0xb8, 0xb4, 0xd8, 0x60, 0xc2, 0x64, 0xc6, 0xb8,
        0x56, 0x7f, 0x5d, 0x1d, 0xae, 0xc1, 0x05, 0x39, 0x3e, 0x59, 0x2c, 0x93, 0x9c, 0x10,
        0x42, 0x86, 0xcf, 0xe5, 0x5d, 0x36, 0xd6, 0x61, 0xbb, 0x4f, 0xea, 0x0c, 0x53, 0xd5,
        0xcd, 0xab, 0x76, 0x18, 0x38, 0xb5, 0xf8, 0x10, 0x20, 0x86, 0x55, 0x89, 0x3e, 0x7e,
        0xb3, 0x29, 0x84, 0x16, 0x6d, 0xde, 0xb6, 0xf4, 0xfd, 0xc9, 0x26, 0xe3, 0xa3, 0x59,
        0x69, 0x84, 0x07, 0xad, 0x16, 0xc9, 0x32, 0xaf, 0x1c, 0xba, 0x28, 0xb9, 0xd3, 0xd2,
        0x1f, 0xbf, 0x8c, 0xee, 0x7b, 0x8f, 0xe4, 0xe9, 0x21, 0xb0, 0x9c, 0x47, 0x62, 0xfa,
        0x38, 0x6f, 0xfc, 0xaf, 0xc2, 0xec, 0xbd, 0xe0, 0x3c, 0x7f, 0x7d, 0xba, 0x03, 0xec,
        0x2c, 0x4d, 0x03, 0x21,
    ];

    let alphabet = "123456789ABCDEFGHJKLMNPQRSTUVWXYZabcdefghijkmnopqrstuvwxyz";

    let encoded = encode(alphabet, &input);
    let decoded = decode(alphabet, &encoded).unwrap();
    assert_eq!(encoded.len(), gen_encoded_size(58, input.len()));
    assert_eq!(
        decoded.len(),
        gen_decoded_size(58, gen_encoded_size(58, input.len()))
    );
}

#[test]
fn size_helpers_concrete_values() {
    // one byte in base 2: up to 9 binary digits cover 256^1
    assert_eq!(gen_encoded_size(2, 1), 9);
    // four bytes in base 16: 256^4 has 9 hex digits
    assert_eq!(gen_encoded_size(16, 4), 9);
    // the empty input
    assert_eq!(gen_encoded_size(58, 0), 1);
    assert_eq!(gen_decoded_size(58, 0), 0);
    // eight base-16 symbols hold exactly four bytes
    assert_eq!(gen_decoded_size(16, 8), 4);
    // backing chunks: one chunk per four symbols, rounded up
    assert_eq!(gen_backing_size(16, 4), 3);
    assert_eq!(gen_backing_size(2, 1), 3);
}
