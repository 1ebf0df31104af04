use fitskit::types::Bitpix;

#[test]
fn bitpix_round_trip() {
    for bp in [
        Bitpix::U8,
        Bitpix::I16,
        Bitpix::I32,
        Bitpix::I64,
        Bitpix::F32,
        Bitpix::F64,
    ] {
        assert_eq!(Bitpix::from_i64(bp.to_i64()).unwrap(), bp);
    }
}

#[test]
fn bitpix_invalid() {
    assert!(Bitpix::from_i64(0).is_err());
    assert!(Bitpix::from_i64(128).is_err());
}

#[test]
fn bytes_per_value() {
    assert_eq!(Bitpix::U8.bytes_per_value(), 1);
    assert_eq!(Bitpix::I16.bytes_per_value(), 2);
    assert_eq!(Bitpix::F64.bytes_per_value(), 8);
}
