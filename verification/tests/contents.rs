use fitskit::ascii_table::{AsciiColumn, AsciiFormat};
use fitskit::checksum::{datasum, stamp_hdu, verify_from_header};
use fitskit::dither::N_RANDOM;
use fitskit::float_images::compress_float_image;
use fitskit::io_utils::ByteReader;
use fitskit::number::Real;
use fitskit::tile_encode::compress_exact;
use fitskit::types::RECORD_SIZE;
use fitskit::wcs::LinearTransform;
use fitskit::{
    compress_image, AsciiTable, BinCellValue, BinColumnType, BinTable, BinTableBuilder,
    CompressOptions, CompressionType, Error, FitsFile, Hdu, HduData, Header, HeaderValue,
    ImageData, Keyword, PixelData, Quantize, TileGeometry, Wcs,
};

fn card(s: &str) -> [u8; RECORD_SIZE] {
    let mut card = [b' '; RECORD_SIZE];
    card[..s.len()].copy_from_slice(s.as_bytes());
    card
}

fn spelled(s: &str) -> Real {
    Real::new(s).unwrap()
}

fn texts(reals: [&Option<Real>; 2]) -> [Option<&str>; 2] {
    reals.map(|r| r.as_ref().map(|x| x.text.as_str()))
}

#[test]
fn stamped_header_verifies_from_header() {
    let data = vec![3u8; 2880];
    let mut h = Header::new();
    h.set("OBJECT", HeaderValue::String("M31".into()), None);
    assert!(verify_from_header(&h, &data).is_ok());
    stamp_hdu(&mut h, &data).unwrap();
    assert!(verify_from_header(&h, &data).is_ok());

    let mut other = data.clone();
    other[0] = 4;
    match verify_from_header(&h, &other) {
        Err(Error::ChecksumMismatch { expected, actual }) => {
            assert_eq!(expected, datasum(&data));
            assert_eq!(actual, datasum(&other));
        }
        r => panic!("unexpected {r:?}"),
    }

    h.set("OBJECT", HeaderValue::String("M33".into()), None);
    match verify_from_header(&h, &data) {
        Err(Error::ChecksumMismatch { expected, actual }) => {
            assert_eq!(expected, 0xffff_ffff);
            assert_ne!(actual, 0xffff_ffff);
        }
        r => panic!("unexpected {r:?}"),
    }
}

#[test]
fn lossless_float_compression_without_quantization() {
    let starts = vec![0usize; N_RANDOM];
    let bits: Vec<u32> = (0..96).map(|i| (i as f32).to_bits()).collect();
    let image = ImageData::new(vec![12, 8], PixelData::F32(bits));
    let mut opts = CompressOptions {
        algorithm: CompressionType::Gzip2,
        tile: None,
        quantize: None,
        ..CompressOptions::default()
    };
    let refused = compress_float_image(&image, &opts, &starts, |_, _| (0, 0, vec![]));
    assert!(matches!(refused, Err(Error::UnsupportedCompression(_))));

    opts.algorithm = CompressionType::Gzip1;
    let hdu = compress_float_image(&image, &opts, &starts, |_, _| (0, 0, vec![])).unwrap();
    let same = compress_exact(&image, &opts).unwrap();
    match (&hdu.data, &same.data) {
        (HduData::BinTable(a), HduData::BinTable(b)) => assert_eq!(a.to_bytes(), b.to_bytes()),
        _ => panic!("expected tables"),
    }
    assert_eq!(hdu.header.get_string("ZQUANTIZ"), Some("NONE"));
}

#[test]
fn unknown_compression_is_named() {
    match CompressionType::parse("  bzip_9 ") {
        Err(Error::UnsupportedCompression(name)) => assert_eq!(name, "BZIP_9"),
        r => panic!("unexpected {r:?}"),
    }
    match Quantize::parse(Some(" odd ")) {
        Err(Error::UnsupportedCompression(name)) => assert_eq!(name, "ZQUANTIZ=ODD"),
        r => panic!("unexpected {r:?}"),
    }
}

#[test]
fn cards_of_utf8_text() {
    let k = Keyword::parse(&card("OBJECT  = 'caf\u{e9}   ' / note \u{e9}t\u{e9}")).unwrap();
    assert_eq!(k.name, "OBJECT");
    // A string has a character for each byte.
    assert_eq!(k.value, Some(HeaderValue::String("caf\u{c3}\u{a9}".into())));
    assert_eq!(k.comment.as_deref(), Some("note \u{e9}t\u{e9}"));

    let k = Keyword::parse(&card("COUNT   =                   12 / \u{3b1}")).unwrap();
    assert_eq!(k.value, Some(HeaderValue::Integer(12)));
    assert_eq!(k.comment.as_deref(), Some("\u{3b1}"));

    let k = Keyword::parse(&card("HISTORY \u{e9}t\u{e9}")).unwrap();
    assert_eq!(k.value, None);
    assert_eq!(k.comment.as_deref(), Some("\u{e9}t\u{e9}"));

    // A character across the end of the name field.
    assert!(matches!(Keyword::parse(&card("HISTOR \u{e9}x")), Err(Error::InvalidKeyword(_))));
}

#[test]
fn comments_of_utf8_text_are_read_as_written() {
    let mut h = Header::new();
    h.set("TEMP", HeaderValue::Integer(12), Some("in \u{b0}C"));
    h.set("OBJECT", HeaderValue::String("M31".into()), Some("\u{3b1} \u{3b2}"));
    h.push(Keyword::commentary("HISTORY", "\u{e9}t\u{e9}"));
    let bytes = h.to_bytes();
    let back = Header::read_from(&mut ByteReader::new(&bytes)).unwrap();
    assert_eq!(back.keywords.len(), 3);
    for (a, b) in h.iter().iter().zip(back.iter()) {
        assert_eq!(a.name, b.name);
        assert_eq!(a.value, b.value);
        assert_eq!(a.comment, b.comment);
    }
}

#[test]
fn numbers_that_are_one_or_zero() {
    for s in ["1", "1.0", "+1", "01.", "0.1E1", "100e-2", "10.00E-1", "1E+0"] {
        assert!(spelled(s).is_one(), "{s}");
        assert!(!spelled(s).is_zero(), "{s}");
    }
    for s in ["0", "0.0", "-0.0", "0E5", ".0", "+00."] {
        assert!(spelled(s).is_zero(), "{s}");
        assert!(!spelled(s).is_one(), "{s}");
    }
    for s in ["-1", "1.5", "11", "10", "1E1", "1E99999999999999999999", "NaN", "inf", "2.0"] {
        assert!(!spelled(s).is_one(), "{s}");
        assert!(!spelled(s).is_zero(), "{s}");
    }
}

fn small_table() -> BinTable {
    BinTableBuilder::new()
        .add_column("A", BinColumnType::I16(1))
        .add_column_full(
            "B",
            BinColumnType::Byte(2),
            Some(spelled("0.5")),
            Some(spelled("32768")),
            Some("m"),
        )
        .add_column("C", BinColumnType::VarP('B'))
        .push_row(|row| {
            row.write_i16(-3);
            row.write_bytes(&[1, 2]);
            row.write_var_p(3, |heap| heap.extend_from_slice(&[7, 8, 9]));
        })
        .build()
}

#[test]
fn bintable_is_read_from_its_header() {
    let t = small_table();
    let mut h = Header::new();
    t.fill_header(&mut h);
    let data = t.to_bytes();
    let u = BinTable::from_header_and_data(&h, &data).unwrap();
    assert_eq!((u.nrows, u.row_len), (t.nrows, t.row_len));
    assert_eq!(u.main_data, t.main_data);
    assert_eq!(u.heap, t.heap);
    assert_eq!(u.columns.len(), 3);
    for (a, b) in u.columns.iter().zip(&t.columns) {
        assert_eq!(a.name, b.name);
        assert_eq!(a.format, b.format);
        assert_eq!(texts([&a.tscal, &a.tzero]), texts([&b.tscal, &b.tzero]));
        assert_eq!(a.tunit, b.tunit);
    }
    match BinTable::from_header_and_data(&h, &data[..t.row_len - 1]) {
        Err(Error::DataSizeMismatch { expected, actual }) => {
            assert_eq!(expected, t.row_len);
            assert_eq!(actual, t.row_len - 1);
        }
        r => panic!("unexpected {r:?}"),
    }
}

#[test]
fn default_scale_is_none() {
    let mut t = small_table();
    t.columns[0].tscal = Some(spelled("1.0"));
    t.columns[0].tzero = Some(spelled("0"));
    let mut h = Header::new();
    t.fill_header(&mut h);
    assert!(h.find("TSCAL1").is_none());
    assert!(h.find("TZERO1").is_none());
    assert_eq!(h.get_float("TSCAL2").unwrap().text, "0.5");

    h.set("TSCAL1", HeaderValue::Float(spelled("1.0")), None);
    h.set("TZERO1", HeaderValue::Integer(0), None);
    let u = BinTable::from_header_and_data(&h, &t.to_bytes()).unwrap();
    assert_eq!(texts([&u.columns[0].tscal, &u.columns[0].tzero]), [None, None]);
    assert_eq!(
        texts([&u.columns[1].tscal, &u.columns[1].tzero]),
        [Some("0.5"), Some("32768")]
    );
}

fn ascii_table() -> AsciiTable {
    let column = |name: &str, tbcol: usize, tscal: Option<Real>| AsciiColumn {
        name: name.into(),
        format: AsciiFormat::Iw(4),
        tbcol,
        tscal,
        tzero: None,
        tunit: Some("s".into()),
    };
    let columns = vec![column("A", 1, None), column("B", 5, Some(spelled("2.5")))];
    AsciiTable::build(columns, 1, b"  12 -34".to_vec())
}

#[test]
fn ascii_table_is_read_from_its_header() {
    let t = ascii_table();
    let mut h = Header::new();
    t.fill_header(&mut h);
    assert!(h.find("TSCAL1").is_none());
    h.set("TSCAL1", HeaderValue::Float(spelled("10E-1")), None);
    h.set("TZERO2", HeaderValue::Float(spelled("-0.0")), None);
    let u = AsciiTable::from_header_and_data(&h, &t.raw_data).unwrap();
    assert_eq!((u.nrows, u.row_len), (1, 8));
    assert_eq!(u.raw_data, t.raw_data);
    for (a, b) in u.columns.iter().zip(&t.columns) {
        assert_eq!(a.name, b.name);
        assert_eq!(a.format, b.format);
        assert_eq!(a.tbcol, b.tbcol);
        assert_eq!(texts([&a.tscal, &a.tzero]), texts([&b.tscal, &b.tzero]));
        assert_eq!(a.tunit, b.tunit);
    }
}

#[test]
fn written_cells_are_read_back() {
    let t = BinTableBuilder::new()
        .add_column("I", BinColumnType::I16(1))
        .add_column("L", BinColumnType::Logical(2))
        .add_column("K", BinColumnType::K64(1))
        .add_column("A", BinColumnType::Char(6))
        .add_column("X", BinColumnType::Bit(11))
        .add_column("C", BinColumnType::C64(1))
        .add_column("M", BinColumnType::M128(1))
        .push_row(|row| {
            row.write_i16(-300);
            row.write_bool(true);
            row.write_bool(false);
            row.write_i64(i64::MIN);
            row.write_string("ab c", 6);
            row.write_bytes(&[0b1010_0000, 0b0010_0000]);
            row.write_f32(1);
            row.write_f32(u32::MAX);
            row.write_f64(2);
            row.write_f64(u64::MAX);
        })
        .build();
    let expected = vec![
        BinCellValue::I16(vec![-300]),
        BinCellValue::Logical(vec![true, false]),
        BinCellValue::I64(vec![i64::MIN]),
        BinCellValue::String("ab c".into()),
        BinCellValue::Bits(vec![0b1010_0000, 0b0010_0000], 11),
        BinCellValue::ComplexF32(vec![(1, u32::MAX)]),
        BinCellValue::ComplexF64(vec![(2, u64::MAX)]),
    ];
    for (col, cell) in expected.into_iter().enumerate() {
        assert_eq!(t.get_cell(0, col).unwrap(), cell);
    }
}

#[test]
fn reader_is_at_its_end_behind_a_file() {
    let image = ImageData::new(vec![2], PixelData::U8(vec![1, 2]));
    let mut bytes = FitsFile::with_primary_image(image).to_bytes().unwrap();
    bytes.extend_from_slice(&[0; 100]);
    let mut reader = ByteReader::new(&bytes);
    let fits = FitsFile::from_reader(&mut reader).unwrap();
    assert_eq!(fits.len(), 1);
    assert_eq!(reader.position(), bytes.len());
}

#[test]
fn clones_are_equal() {
    let mut fits = FitsFile::with_primary_image(ImageData::new(
        vec![2],
        PixelData::F64(vec![1, 2]),
    ));
    fits.push_extension(Hdu::bintable_extension(small_table()));
    fits.push_extension(Hdu::ascii_table_extension(ascii_table()));
    let copy = fits.clone();
    assert_eq!(copy.len(), 3);
    assert_eq!(copy.to_bytes().unwrap(), fits.to_bytes().unwrap());
    assert_eq!(copy.extensions()[1].clone().header.keywords.len(), {
        fits.extensions()[1].header.keywords.len()
    });

    let geometry = TileGeometry { znaxis: vec![5, 4], ztile: vec![5, 1] };
    let same = geometry.clone();
    assert_eq!((same.znaxis, same.ztile), (geometry.znaxis, geometry.ztile));

    let opts = CompressOptions { tile: Some(vec![3, 2]), ..CompressOptions::default() };
    let same = opts.clone();
    assert_eq!(same.tile, opts.tile);
    assert_eq!(same.quantize.unwrap().text, "4.0");
    assert_eq!(same.blocksize, opts.blocksize);
    assert_eq!(same.dither_seed, Some(1));

    let mut h = Header::new();
    h.set("CTYPE1", HeaderValue::String("RA---TAN".into()), None);
    h.set("CTYPE2", HeaderValue::String("DEC--TAN".into()), None);
    for (name, value) in [("CRVAL1", "10.5"), ("CRVAL2", "-4.5"), ("CRPIX1", "1.0")] {
        h.set(name, HeaderValue::Float(spelled(value)), None);
    }
    h.set("CRPIX2", HeaderValue::Float(spelled("2.0")), None);
    h.set("CDELT1", HeaderValue::Float(spelled("-0.25")), None);
    h.set("CDELT2", HeaderValue::Float(spelled("0.25")), None);
    let wcs: Wcs = h.wcs().unwrap().clone();
    assert_eq!(wcs.crval1.text, "10.5");
    match wcs.lin {
        LinearTransform::Pc { cdelt1, .. } => assert_eq!(cdelt1.text, "-0.25"),
        _ => panic!("expected steps"),
    }
}

#[test]
fn tile_axes_beyond_those_of_the_image_do_not_count() {
    let image = ImageData::new(vec![5, 3], PixelData::I16((0..15).collect()));
    let opts = CompressOptions { tile: Some(vec![2, 2]), ..CompressOptions::default() };
    let starts = vec![0usize; N_RANDOM];
    let hdu = compress_image(&image, &opts, &starts, |_, _| (0, 0, vec![])).unwrap();
    let mut compressed = hdu.as_compressed_image().unwrap();
    compressed.geometry.ztile.push(7);
    assert_eq!(compressed.decompress(&starts, |_, _, _| 0).unwrap(), image);
    assert_eq!(compressed.decompress_exact().unwrap(), image);
}
