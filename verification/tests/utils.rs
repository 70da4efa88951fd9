use merkle_host::utils::{
    bn_to_field, field_to_bn, field_to_u32, field_to_u64, u32_to_limbs, GateCell, FIELD_BYTES,
};
use num_bigint::BigUint;

fn padded(head: &[u8]) -> Vec<u8> {
    let mut bytes = head.to_vec();
    bytes.resize(48, 0);
    bytes
}

#[test]
fn field_bytes_is_48() {
    assert_eq!(FIELD_BYTES, 48);
}

#[test]
fn bytes_to_big_number_little_endian() {
    assert_eq!(field_to_bn(&[]), BigUint::from(0u32));
    assert_eq!(field_to_bn(&[0]), BigUint::from(0u32));
    assert_eq!(field_to_bn(&[7]), BigUint::from(7u32));
    assert_eq!(field_to_bn(&[1, 2]), BigUint::from(513u32));
    assert_eq!(field_to_bn(&[2, 1]), BigUint::from(258u32));
    assert_eq!(field_to_bn(&[0x78, 0x56, 0x34, 0x12]), BigUint::from(0x12345678u32));
    // zero bytes at the end do not count
    assert_eq!(field_to_bn(&[5, 0, 0, 0, 0]), BigUint::from(5u32));
    let mut wide = [0u8; 32];
    wide[31] = 1;
    assert_eq!(field_to_bn(&wide), BigUint::from(1u32) << 248);
}

#[test]
fn big_number_to_48_bytes() {
    assert_eq!(bn_to_field(&BigUint::from(0u32)), padded(&[]));
    assert_eq!(bn_to_field(&BigUint::from(1u32)), padded(&[1]));
    assert_eq!(bn_to_field(&BigUint::from(513u32)), padded(&[1, 2]));
    assert_eq!(bn_to_field(&BigUint::from(0x12345678u32)), padded(&[0x78, 0x56, 0x34, 0x12]));
    let top = (BigUint::from(1u32) << 384) - BigUint::from(1u32);
    assert_eq!(bn_to_field(&top), vec![0xffu8; 48]);
}

#[test]
fn big_number_beyond_48_bytes_is_cut() {
    let beyond = (BigUint::from(1u32) << 384) + BigUint::from(5u32);
    assert_eq!(bn_to_field(&beyond), padded(&[5]));
    let beyond = BigUint::from(0xabu32) << 384;
    assert_eq!(bn_to_field(&beyond), padded(&[]));
    let beyond = (BigUint::from(0x0102u32) << 376) + BigUint::from(9u32);
    let mut expected = padded(&[9]);
    expected[47] = 2;
    assert_eq!(bn_to_field(&beyond), expected);
}

#[test]
fn big_number_round_trip() {
    for number in [0u64, 1, 255, 256, 65535, 0x0123_4567_89ab_cdef, u64::MAX] {
        let big = BigUint::from(number);
        let bytes = bn_to_field(&big);
        assert_eq!(bytes.len(), 48);
        assert_eq!(field_to_bn(&bytes), big);
        assert_eq!(field_to_u64(&bytes), number);
        assert_eq!(field_to_u32(&bytes) as u64, number & 0xffff_ffff);
    }
}

#[test]
fn first_four_bytes_little_endian() {
    assert_eq!(field_to_u32(&[0, 0, 0, 0]), 0);
    assert_eq!(field_to_u32(&[1, 0, 0, 0]), 1);
    assert_eq!(field_to_u32(&[0, 1, 0, 0]), 256);
    assert_eq!(field_to_u32(&[0, 0, 1, 0]), 65536);
    assert_eq!(field_to_u32(&[0, 0, 0, 1]), 16777216);
    assert_eq!(field_to_u32(&[0x78, 0x56, 0x34, 0x12]), 0x12345678);
    assert_eq!(field_to_u32(&[0xff, 0xff, 0xff, 0xff]), u32::MAX);
    // what follows the first four bytes does not count
    assert_eq!(field_to_u32(&[0x78, 0x56, 0x34, 0x12, 0xff, 0xff]), 0x12345678);
    assert_eq!(field_to_u32(&[1, 2, 3, 4, 5, 6, 7, 8]), u32::from_le_bytes([1, 2, 3, 4]));
}

#[test]
fn first_eight_bytes_little_endian() {
    assert_eq!(field_to_u64(&[0; 8]), 0);
    assert_eq!(field_to_u64(&[1, 0, 0, 0, 0, 0, 0, 0]), 1);
    assert_eq!(field_to_u64(&[0, 0, 0, 0, 1, 0, 0, 0]), 1 << 32);
    assert_eq!(field_to_u64(&[0, 0, 0, 0, 0, 0, 0, 1]), 1 << 56);
    assert_eq!(
        field_to_u64(&[0xef, 0xcd, 0xab, 0x89, 0x67, 0x45, 0x23, 0x01]),
        0x0123_4567_89ab_cdef
    );
    assert_eq!(field_to_u64(&[0xff; 8]), u64::MAX);
    assert_eq!(field_to_u64(&[0xff; 32]), u64::MAX);
    assert_eq!(
        field_to_u64(&[1, 2, 3, 4, 5, 6, 7, 8, 9, 10]),
        u64::from_le_bytes([1, 2, 3, 4, 5, 6, 7, 8])
    );
}

#[test]
fn limbs_are_the_base_16_digits() {
    assert_eq!(u32_to_limbs(0), [0; 8]);
    assert_eq!(u32_to_limbs(1), [1, 0, 0, 0, 0, 0, 0, 0]);
    assert_eq!(u32_to_limbs(16), [0, 1, 0, 0, 0, 0, 0, 0]);
    assert_eq!(u32_to_limbs(0x12345678), [8, 7, 6, 5, 4, 3, 2, 1]);
    assert_eq!(u32_to_limbs(0xf0000000), [0, 0, 0, 0, 0, 0, 0, 15]);
    assert_eq!(u32_to_limbs(u32::MAX), [15; 8]);
}

#[test]
fn limbs_add_up_to_the_number() {
    for v in [0u32, 9, 255, 4096, 0xdeadbeef, u32::MAX] {
        let limbs = u32_to_limbs(v);
        let mut sum = 0u64;
        for (i, limb) in limbs.iter().enumerate() {
            assert!(*limb < 16);
            sum += limb << (4 * i);
        }
        assert_eq!(sum, v as u64);
    }
}

#[test]
fn gate_cell_holds_its_fields() {
    let cell = GateCell { cell: [1, 2, 3], name: "carry".to_string() };
    assert_eq!(cell.cell, [1, 2, 3]);
    assert_eq!(cell.name, "carry");
    assert_eq!(format!("{:?}", cell), "GateCell { cell: [1, 2, 3], name: \"carry\" }");
}
