use fitskit::ascii_table::AsciiFormat;

#[test]
fn parse_ascii_formats() {
    let f = AsciiFormat::parse("A10").unwrap();
    assert!(matches!(f, AsciiFormat::Aw(10)));

    let f = AsciiFormat::parse("I5").unwrap();
    assert!(matches!(f, AsciiFormat::Iw(5)));

    let f = AsciiFormat::parse("F10.3").unwrap();
    assert!(matches!(f, AsciiFormat::Fwd(10, 3)));

    let f = AsciiFormat::parse("E15.7").unwrap();
    assert!(matches!(f, AsciiFormat::Ewd(15, 7)));

    let f = AsciiFormat::parse("D25.17").unwrap();
    assert!(matches!(f, AsciiFormat::Dwd(25, 17)));
}

#[test]
fn invalid_format() {
    assert!(AsciiFormat::parse("Z10").is_err());
    assert!(AsciiFormat::parse("").is_err());
}
