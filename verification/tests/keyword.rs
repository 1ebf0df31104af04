use fitskit::number::Real;
use fitskit::types::RECORD_SIZE;
use fitskit::{HeaderValue, Keyword};

fn float_text(v: f64) -> Real {
    Real::new(&format!("{v:E}")).unwrap()
}

fn make_card(s: &str) -> [u8; RECORD_SIZE] {
    let mut card = [b' '; RECORD_SIZE];
    let bytes = s.as_bytes();
    let len = bytes.len().min(RECORD_SIZE);
    card[..len].copy_from_slice(&bytes[..len]);
    card
}

#[test]
fn parse_integer() {
    let card = make_card("BITPIX  =                   16 / bits per data value");
    let kw = Keyword::parse(&card).unwrap();
    assert_eq!(kw.name, "BITPIX");
    assert_eq!(kw.value.unwrap().as_int(), Some(16));
    assert_eq!(kw.comment.unwrap(), "bits per data value");
}

#[test]
fn parse_negative_integer() {
    let card = make_card("BITPIX  =                  -32 / IEEE float");
    let kw = Keyword::parse(&card).unwrap();
    assert_eq!(kw.value.unwrap().as_int(), Some(-32));
}

#[test]
fn parse_float() {
    let card = make_card("BSCALE  =   1.000000000000E+00 / scale");
    let kw = Keyword::parse(&card).unwrap();
    let v: f64 = kw.value.unwrap().as_float().unwrap().text.parse().unwrap();
    assert!((v - 1.0).abs() < 1e-10);
}

#[test]
fn parse_logical() {
    let card = make_card("SIMPLE  =                    T / Standard FITS");
    let kw = Keyword::parse(&card).unwrap();
    assert_eq!(kw.value.unwrap().as_bool(), Some(true));
}

#[test]
fn parse_string() {
    let card = make_card("TELESCOP= 'Hubble  '           / telescope name");
    let kw = Keyword::parse(&card).unwrap();
    assert_eq!(kw.value.unwrap().as_str(), Some("Hubble"));
}

#[test]
fn parse_string_with_embedded_quote() {
    let card = make_card("COMMENT = 'It''s OK'           / note");
    let kw = Keyword::parse(&card).unwrap();
    assert_eq!(kw.value.unwrap().as_str(), Some("It's OK"));
}

#[test]
fn parse_commentary() {
    let card = make_card("COMMENT This is a comment");
    let kw = Keyword::parse(&card).unwrap();
    assert_eq!(kw.name, "COMMENT");
    assert!(kw.value.is_none());
    assert!(kw.comment.unwrap().contains("This is a comment"));
}

#[test]
fn round_trip_integer() {
    let kw = Keyword::with_value("NAXIS", HeaderValue::Integer(2), Some("number of axes"));
    let cards = kw.to_cards();
    assert_eq!(cards.len(), 1);
    let parsed = Keyword::parse(&cards[0]).unwrap();
    assert_eq!(parsed.name, "NAXIS");
    assert_eq!(parsed.value.unwrap().as_int(), Some(2));
}

#[test]
fn round_trip_logical() {
    let kw = Keyword::with_value("SIMPLE", HeaderValue::Logical(true), None);
    let cards = kw.to_cards();
    let parsed = Keyword::parse(&cards[0]).unwrap();
    assert_eq!(parsed.value.unwrap().as_bool(), Some(true));
}

#[test]
fn round_trip_string() {
    let kw = Keyword::with_value("OBJECT", HeaderValue::String("NGC 1234".into()), None);
    let cards = kw.to_cards();
    let parsed = Keyword::parse(&cards[0]).unwrap();
    assert_eq!(parsed.value.unwrap().as_str(), Some("NGC 1234"));
}

#[test]
fn round_trip_float() {
    let kw = Keyword::with_value("CRVAL1", HeaderValue::Float(float_text(123.456)), None);
    let cards = kw.to_cards();
    let parsed = Keyword::parse(&cards[0]).unwrap();
    let v: f64 = parsed.value.unwrap().as_float().unwrap().text.parse().unwrap();
    assert!((v - 123.456).abs() < 1e-10);
}

#[test]
fn long_string_continue() {
    let long = "A".repeat(100);
    let kw = Keyword::with_value("LONGSTR", HeaderValue::String(long.clone()), None);
    let cards = kw.to_cards();
    assert!(cards.len() > 1);
    // Verify first card has CONTINUE indicator
    let first = std::str::from_utf8(&cards[0]).unwrap();
    assert!(first.contains('&'));
    // Verify second card starts with CONTINUE
    let second = std::str::from_utf8(&cards[1]).unwrap();
    assert!(second.starts_with("CONTINUE"));
}

#[test]
fn end_card() {
    let kw = Keyword::new("END", None, None);
    let cards = kw.to_cards();
    assert_eq!(cards.len(), 1);
    let s = std::str::from_utf8(&cards[0]).unwrap();
    assert!(s.starts_with("END"));
    assert!(s[3..].chars().all(|c| c == ' '));
}
