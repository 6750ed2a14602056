use kzg_core::Scalar;

const MODULUS_LE: [u8; 32] = [
    0x01, 0x00, 0x00, 0x00, 0xff, 0xff, 0xff, 0xff, 0xfe, 0x5b, 0xfe, 0xff, 0x02, 0xa4, 0xbd, 0x53,
    0x05, 0xd8, 0xa1, 0x09, 0x08, 0xd8, 0x39, 0x33, 0x48, 0x7d, 0x9d, 0x29, 0x53, 0xa7, 0xed, 0x73,
];

#[test]
fn small_scalars_have_their_little_endian_encoding() {
    let mut expected = [0u8; 32];
    assert_eq!(Scalar::zero().to_bytes_le(), expected);
    expected[0] = 1;
    assert_eq!(Scalar::one().to_bytes_le(), expected);
    expected[0] = 0x87;
    expected[1] = 0xd6;
    expected[2] = 0x12;
    assert_eq!(Scalar::from_u64(1234567).to_bytes_le(), expected);
    assert_eq!(expected.len(), kzg_core::SCALAR_SERIALISED_SIZE);
}

#[test]
fn canonical_bytes_are_accepted_and_others_refused() {
    let mut bytes = MODULUS_LE;
    assert!(Scalar::from_bytes_le(bytes).is_none());
    bytes[0] = 0;
    let largest = Scalar::from_bytes_le(bytes).unwrap();
    assert_eq!(largest.to_bytes_le(), bytes);
    assert!(Scalar::from_bytes_le([0xff; 32]).is_none());
    assert_eq!(Scalar::from_bytes_le([0; 32]).unwrap(), Scalar::zero());
}

#[test]
fn equals_compares_field_elements() {
    let a = Scalar::from_u64(77);
    let b = Scalar::from_u64(77);
    let c = Scalar::from_u64(78);
    assert!(a.equals(&b));
    assert!(!a.equals(&c));
    assert!(Scalar::zero().equals(&Scalar::from_u64(0)));
    let mut high = [0u8; 32];
    high[31] = 1;
    let d = Scalar::from_bytes_le(high).unwrap();
    assert!(!d.equals(&Scalar::zero()));
    assert!(d.equals(&d));
}
