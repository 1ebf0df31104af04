use fitskit::io_utils::ByteReader;
use fitskit::number::Real;
use fitskit::types::BLOCK_SIZE;
use fitskit::{Header, HeaderValue};

fn float_text(v: f64) -> Real {
    Real::new(&format!("{v:E}")).unwrap()
}

#[test]
fn typed_accessors() {
    let mut h = Header::new();
    h.set("BITPIX", HeaderValue::Integer(16), None);
    h.set("BSCALE", HeaderValue::Float(float_text(1.0)), None);
    h.set("OBJECT", HeaderValue::String("M31".into()), None);
    h.set("SIMPLE", HeaderValue::Logical(true), None);

    assert_eq!(h.get_int("BITPIX"), Some(16));
    let bscale: Option<f64> = h.get_float("BSCALE").map(|r| r.text.parse().unwrap());
    assert_eq!(bscale, Some(1.0));
    assert_eq!(h.get_string("OBJECT"), Some("M31"));
    assert_eq!(h.get_bool("SIMPLE"), Some(true));
}

#[test]
fn set_updates_existing() {
    let mut h = Header::new();
    h.set("NAXIS", HeaderValue::Integer(0), None);
    h.set("NAXIS", HeaderValue::Integer(2), None);
    assert_eq!(h.get_int("NAXIS"), Some(2));
    assert_eq!(h.keywords.len(), 1);
}

#[test]
fn data_byte_count_image() {
    let mut h = Header::new();
    h.set("BITPIX", HeaderValue::Integer(16), None);
    h.set("NAXIS", HeaderValue::Integer(2), None);
    h.set("NAXIS1", HeaderValue::Integer(100), None);
    h.set("NAXIS2", HeaderValue::Integer(200), None);
    assert_eq!(h.data_byte_count().unwrap(), 2 * 100 * 200);
}

#[test]
fn data_byte_count_zero_naxis() {
    let mut h = Header::new();
    h.set("BITPIX", HeaderValue::Integer(8), None);
    h.set("NAXIS", HeaderValue::Integer(0), None);
    assert_eq!(h.data_byte_count().unwrap(), 0);
}

#[test]
fn header_round_trip() {
    let mut h = Header::new();
    h.set(
        "SIMPLE",
        HeaderValue::Logical(true),
        Some("conforms to standard"),
    );
    h.set("BITPIX", HeaderValue::Integer(16), None);
    h.set("NAXIS", HeaderValue::Integer(0), None);

    let mut buf = Vec::new();
    h.write_to(&mut buf).unwrap();

    assert_eq!(buf.len() % BLOCK_SIZE, 0);

    let mut cursor = ByteReader::new(&buf);
    let h2 = Header::read_from(&mut cursor).unwrap();

    assert_eq!(h2.get_bool("SIMPLE"), Some(true));
    assert_eq!(h2.get_int("BITPIX"), Some(16));
    assert_eq!(h2.get_int("NAXIS"), Some(0));
}
