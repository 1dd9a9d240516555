use base_x::{BigUintErr, BigUintStatic};

#[test]
fn big_uint_static_from_bytes() {
    let bytes: &[u8] = &[
        0xDE, 0xAD, 0x00, 0x00, 0x00, 0x13, 0x37, 0xAD, 0x00, 0x00, 0x00, 0x00, 0xDE, 0xAD,
    ];
    let big = BigUintStatic::<4>::from_bytes_be(bytes).unwrap();
    let a = big;
    let mut output = [0u8; 14];
    a.into_bytes_be(&mut output).unwrap();

    assert_eq!(output, bytes);
    assert_eq!(
        big.chunks,
        [0x0000DEAD, 0x00000013, 0x37AD0000, 0x0000DEAD],
        "{:X?}:{:X?}",
        big.chunks,
        [0x0000DEAD, 0x00000013, 0x37AD0000, 0xDEAD0000u32],
    );
}

#[test]
fn big_uint_static_rem_div() {
    let mut big = BigUintStatic {
        chunks: [0x136AD712, 0x84322759],
    };

    let rem = big.div_mod(58);
    let merged = (u64::from(big.chunks[0]) << 32) | u64::from(big.chunks[1]);

    assert_eq!(merged, 0x136AD71284322759 / 58);
    assert_eq!(u64::from(rem), 0x136AD71284322759 % 58);
}

#[test]
fn big_uint_static_add_mul() {
    let mut big = BigUintStatic {
        chunks: [0x000AD712, 0x84322759],
    };

    big.mul_add(58, 37).unwrap();
    let merged = (u64::from(big.chunks[0]) << 32) | u64::from(big.chunks[1]);

    assert_eq!(merged, (0x000AD71284322759 * 58) + 37);
}

#[test]
fn from_bytes_rejects_too_many_bytes() {
    let bytes: &[u8] = &[1, 2, 3, 4, 5, 6, 7, 8, 9];
    let r = BigUintStatic::<2>::from_bytes_be(bytes);
    assert_eq!(r.unwrap_err(), (9, 3));
}

#[test]
fn into_bytes_rejects_short_buffer() {
    let bytes: &[u8] = &[0xDE, 0xAD, 0xBE, 0xEF, 0x01];
    let big = BigUintStatic::<2>::from_bytes_be(bytes).unwrap();
    let mut output = [0u8; 3];
    assert_eq!(big.into_bytes_be(&mut output), Err((3, 5)));
    assert_eq!(output, [0, 0, 0]);
}

#[test]
fn mul_add_reports_overflow() {
    let mut big = BigUintStatic {
        chunks: [0xFFFF_FFFF],
    };
    assert_eq!(big.mul_add(2, 0), Err(BigUintErr::BackingArrayTooSmall));
}

#[test]
fn div_mod_then_mul_add_restores() {
    let mut big = BigUintStatic {
        chunks: [0x136AD712, 0x84322759],
    };
    let rem = big.div_mod(58);
    big.mul_add(58, rem).unwrap();
    assert_eq!(big.chunks, [0x136AD712, 0x84322759]);
}

#[test]
fn is_zero_tracks_value() {
    let mut big = BigUintStatic { chunks: [0u32, 7u32] };
    assert!(!big.is_zero());
    let rem = big.div_mod(7);
    assert_eq!(rem, 0);
    assert!(!big.is_zero());
    let rem = big.div_mod(7);
    assert_eq!(rem, 1);
    assert!(big.is_zero());
    assert!(BigUintStatic::<3>::default().is_zero());
}
