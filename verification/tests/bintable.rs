use fitskit::bintable::BinColumnType;

#[test]
fn parse_tform_codes() {
    assert!(matches!(
        BinColumnType::parse("1J").unwrap(),
        BinColumnType::J32(1)
    ));
    assert!(matches!(
        BinColumnType::parse("10E").unwrap(),
        BinColumnType::E32(10)
    ));
    assert!(matches!(
        BinColumnType::parse("8A").unwrap(),
        BinColumnType::Char(8)
    ));
    assert!(matches!(
        BinColumnType::parse("D").unwrap(),
        BinColumnType::D64(1)
    ));
    assert!(matches!(
        BinColumnType::parse("1PJ").unwrap(),
        BinColumnType::VarP('J')
    ));
    assert!(matches!(
        BinColumnType::parse("1QD").unwrap(),
        BinColumnType::VarQ('D')
    ));
}

#[test]
fn byte_sizes() {
    assert_eq!(BinColumnType::Logical(1).byte_size(), 1);
    assert_eq!(BinColumnType::I16(3).byte_size(), 6);
    assert_eq!(BinColumnType::J32(1).byte_size(), 4);
    assert_eq!(BinColumnType::D64(2).byte_size(), 16);
    assert_eq!(BinColumnType::VarP('J').byte_size(), 8);
    assert_eq!(BinColumnType::VarQ('D').byte_size(), 16);
    assert_eq!(BinColumnType::Bit(10).byte_size(), 2);
}

#[test]
fn tform_round_trip() {
    for s in &[
        "1J", "10E", "8A", "1D", "3I", "1L", "20X", "1C", "1M", "1PJ", "1QD",
    ] {
        let ct = BinColumnType::parse(s).unwrap();
        let out = ct.to_tform_string();
        let ct2 = BinColumnType::parse(&out).unwrap();
        assert_eq!(ct.byte_size(), ct2.byte_size());
    }
}
