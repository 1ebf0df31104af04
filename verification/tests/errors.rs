use fitskit::ascii_table::{AsciiColumn, AsciiFormat, AsciiTable};
use fitskit::bintable::{BinColumnType, BinTableBuilder};
use fitskit::bitstream::BitReader;
use fitskit::checksum::verify_datasum_value;
use fitskit::dither::N_RANDOM;
use fitskit::gzip::{gzip_inflate, strip_gzip_wrapper};
use fitskit::hcompress::hcompress_decompress;
use fitskit::io_utils::{read_data_block, ByteReader};
use fitskit::number::Real;
use fitskit::plio::plio_decompress;
use fitskit::rice::rice_decompress_i32;
use fitskit::types::RECORD_SIZE;
use fitskit::{
    compress_image, BinTable, Bitpix, CompressOptions, CompressedImage, CompressionType, Error,
    FitsFile, Header, HeaderValue, ImageData, Keyword, PixelData, Quantize, Wcs,
};

fn card(s: &str) -> [u8; RECORD_SIZE] {
    let mut card = [b' '; RECORD_SIZE];
    card[..s.len()].copy_from_slice(s.as_bytes());
    card
}

#[test]
fn messages() {
    let cases: Vec<(Error, &str)> = vec![
        (Error::Io("gone".into()), "I/O error: gone"),
        (Error::InvalidFormat("x".into()), "invalid FITS format: x"),
        (Error::InvalidKeyword("x".into()), "invalid keyword: x"),
        (Error::UnsupportedBitpix(-7), "unsupported BITPIX value: -7"),
        (Error::MissingKeyword("NAXIS".into()), "missing required keyword: NAXIS"),
        (Error::KeywordTypeMismatch("x".into()), "keyword type mismatch: x"),
        (
            Error::DataSizeMismatch { expected: 10, actual: 3 },
            "data size mismatch: expected 10, got 3",
        ),
        (
            Error::ChecksumMismatch { expected: 0xab, actual: 0x1234_5678 },
            "checksum mismatch: expected 0x000000ab, got 0x12345678",
        ),
        (Error::UnsupportedExtension("FOO".into()), "unsupported extension: FOO"),
        (Error::InvalidTableFormat("x".into()), "invalid table format: x"),
        (Error::UnsupportedCompression("x".into()), "unsupported compression: x"),
        (Error::CompressionError("x".into()), "compression error: x"),
    ];
    for (e, text) in cases {
        assert_eq!(e.display(), text);
    }
}

#[test]
fn io_where_input_ends() {
    assert!(matches!(FitsFile::from_bytes(&[]), Err(Error::Io(_))));
    let mut reader = ByteReader::new(&[1, 2, 3]);
    assert!(matches!(read_data_block(&mut reader, 2), Err(Error::Io(_))));
    assert_eq!(reader.position(), 0);
}

#[test]
fn cut_file_is_an_error() {
    let image = ImageData::new(vec![1000, 3], PixelData::U8(vec![1; 3000]));
    let bytes = FitsFile::with_primary_image(image).to_bytes().unwrap();
    assert_eq!(bytes.len(), 3 * 2880);
    assert!(FitsFile::from_bytes(&bytes[..2 * 2880]).is_err());
}

#[test]
fn cards_that_are_not_text() {
    let mut bad = card("OBJECT  = 'M31     '");
    bad[12] = 0xff;
    assert!(Keyword::parse(&bad).is_err());
    assert!(Keyword::parse(&card("OBJECT  = 'M31")).is_err());
}

#[test]
fn unsupported_bitpix() {
    assert!(matches!(Bitpix::from_i64(12), Err(Error::UnsupportedBitpix(12))));
}

#[test]
fn missing_keyword() {
    let h = Header::new();
    match h.require_int("NAXIS") {
        Err(Error::MissingKeyword(name)) => assert_eq!(name, "NAXIS"),
        other => panic!("unexpected {other:?}"),
    }
}

#[test]
fn keyword_of_another_type() {
    let mut h = Header::new();
    h.set("NAXIS", HeaderValue::String("two".into()), None);
    assert!(h.require_int("NAXIS").is_err());
}

#[test]
fn data_of_another_size() {
    let column = AsciiColumn {
        name: "NUM".into(),
        format: AsciiFormat::Iw(4),
        tbcol: 1,
        tscal: None,
        tzero: None,
        tunit: None,
    };
    let table = AsciiTable::build(vec![column], 2, b"  12".to_vec());
    assert_eq!(table.get_cell_raw(0, 0).unwrap(), "  12");
    assert!(matches!(
        table.get_cell_raw(1, 0),
        Err(Error::DataSizeMismatch { expected: 8, actual: 4 })
    ));
    assert!(matches!(table.get_cell_raw(0, 1), Err(Error::InvalidFormat(_))));
    assert!(matches!(table.get_cell_raw(2, 0), Err(Error::InvalidFormat(_))));
}

#[test]
fn cells_that_are_no_numbers() {
    let column = AsciiColumn {
        name: "NUM".into(),
        format: AsciiFormat::Aw(4),
        tbcol: 1,
        tscal: Some(Real::new("2.0").unwrap()),
        tzero: None,
        tunit: None,
    };
    let table = AsciiTable::build(vec![column], 3, b" abc1D2  -7 ".to_vec());
    assert!(matches!(table.integer_at(0, 0), Err(Error::InvalidTableFormat(_))));
    assert!(matches!(table.number_at(0, 0), Err(Error::InvalidTableFormat(_))));
    assert_eq!(table.number_at(1, 0).unwrap().text, "1E2");
    assert_eq!(table.integer_at(2, 0).unwrap(), -7);
    assert_eq!(table.get_string(0, 0).unwrap(), " abc");
}

#[test]
fn table_text_must_be_utf8() {
    let column = AsciiColumn {
        name: "T".into(),
        format: AsciiFormat::Aw(2),
        tbcol: 1,
        tscal: None,
        tzero: None,
        tunit: None,
    };
    let table = AsciiTable::build(vec![column], 2, vec![0xc3, 0xa9, 0xff, 0xfe]);
    assert_eq!(table.get_cell_raw(0, 0).unwrap(), "\u{e9}");
    assert!(matches!(table.get_cell_raw(1, 0), Err(Error::InvalidFormat(_))));
}

#[test]
fn checksum_values() {
    let mut h = Header::new();
    verify_datasum_value(&h, 17).unwrap();
    h.set("DATASUM", HeaderValue::String("17".into()), None);
    verify_datasum_value(&h, 17).unwrap();
    assert!(matches!(
        verify_datasum_value(&h, 18),
        Err(Error::ChecksumMismatch { expected: 17, actual: 18 })
    ));
    h.set("DATASUM", HeaderValue::String("many".into()), None);
    verify_datasum_value(&h, 17).unwrap();
}

#[test]
fn unsupported_extension() {
    let mut h = Header::new();
    h.set("XTENSION", HeaderValue::String("FOREIGN".into()), None);
    h.set("BITPIX", HeaderValue::Integer(8), None);
    h.set("NAXIS", HeaderValue::Integer(1), None);
    h.set("NAXIS1", HeaderValue::Integer(4), None);
    let mut bytes = FitsFile::with_empty_primary().to_bytes().unwrap();
    bytes.extend(h.to_bytes());
    bytes.extend_from_slice(&[0; 2880]);
    match FitsFile::from_bytes(&bytes) {
        Err(Error::UnsupportedExtension(name)) => assert_eq!(name, "FOREIGN"),
        other => panic!("unexpected {other:?}"),
    }
}

#[test]
fn table_formats() {
    assert!(matches!(BinColumnType::parse("3Z"), Err(Error::InvalidTableFormat(_))));
    assert!(matches!(AsciiFormat::parse("F10"), Err(Error::InvalidTableFormat(_))));
}

#[test]
fn compression_names() {
    assert!(matches!(
        CompressionType::parse("ZIP"),
        Err(Error::UnsupportedCompression(_))
    ));
    assert!(matches!(
        Quantize::parse(Some("ROUND")),
        Err(Error::UnsupportedCompression(_))
    ));
    assert_eq!(CompressionType::parse("RICE_1").unwrap(), CompressionType::Rice1);
    assert_eq!(CompressionType::Hcompress1.to_name(), "HCOMPRESS_1");
}

#[test]
fn algorithms_that_only_decode() {
    let image = ImageData::new(vec![2], PixelData::I16(vec![1, 2]));
    for algorithm in
        [CompressionType::Plio1, CompressionType::Hcompress1, CompressionType::NoCompress]
    {
        let opts = CompressOptions { algorithm, ..CompressOptions::default() };
        assert!(matches!(
            compress_image(&image, &opts, &[0; N_RANDOM], |_, _| (0, 0, vec![])),
            Err(Error::UnsupportedCompression(_))
        ));
    }
}

#[test]
fn broken_streams() {
    assert!(matches!(gzip_inflate(&[0x1f, 0x8b]), Err(Error::CompressionError(_))));
    assert!(strip_gzip_wrapper(&[0, 0, 8, 0, 0, 0, 0, 0, 0, 0]).is_err());
    let mut member = vec![0x1f, 0x8b, 8, 0, 0, 0, 0, 0, 0, 255];
    member.extend_from_slice(&[0xff; 16]);
    assert!(matches!(gzip_inflate(&member), Err(Error::CompressionError(_))));
    assert!(matches!(rice_decompress_i32(&[1, 2], 3, 32), Err(Error::CompressionError(_))));
    assert!(matches!(hcompress_decompress(&[1, 2, 3], false, 0), Err(Error::CompressionError(_))));
    assert!(plio_decompress(&[], 4).is_err());
    assert!(BitReader::new(&[]).read_bits(1).is_err());
}

#[test]
fn tables_that_hold_no_image() {
    let table = BinTableBuilder::new().add_column("A", BinColumnType::J32(1)).build();
    let mut h = Header::new();
    assert!(!CompressedImage::detect(&h));
    h.set("ZIMAGE", HeaderValue::Logical(true), None);
    assert!(CompressedImage::detect(&h));
    assert!(CompressedImage::from_bintable(&h, &table).is_err());
}

#[test]
fn cells_out_of_the_table() {
    let table: BinTable = BinTableBuilder::new().add_column("A", BinColumnType::J32(1)).build();
    assert!(table.get_cell(0, 0).is_err());
    assert!(table.cell_bytes(0, 1).is_err());
}

#[test]
fn wcs_errors() {
    let mut h = Header::new();
    assert!(matches!(Wcs::from_header(&h), Err(Error::Wcs(_))));
    h.set("CTYPE1", HeaderValue::String("RA---XYZ".into()), None);
    h.set("CTYPE2", HeaderValue::String("DEC--XYZ".into()), None);
    assert!(matches!(Wcs::from_header(&h), Err(Error::UnsupportedWcs(_))));
}
