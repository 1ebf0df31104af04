use fitskit::ascii_table::{AsciiColumn, AsciiFormat, AsciiTable};
use fitskit::bintable::{BinCellValue, BinColumnType, BinTableBuilder};
use fitskit::checksum::{checksum, checksum_accumulate, decode_checksum, encode_checksum, verify_hdu};
use fitskit::dither::{
    quantize_plan, quantized_samples, unquantize_plan, PixelPlan, QuantizePlan, NULL_VALUE,
    N_RANDOM, ZERO_VALUE,
};
use fitskit::float_images::compress_float_image;
use fitskit::grid::{assemble, cut_tile, tile_size, tiles_per_axis_of};
use fitskit::gzip::{gzip2_shuffle, gzip2_unshuffle, gzip_deflate, gzip_inflate};
use fitskit::io_utils::ByteReader;
use fitskit::number::Real;
use fitskit::tile_compress::{FloatBits, FloatTile};
use fitskit::tile_encode::{compress_quantized, QuantizedTile};
use fitskit::{
    compress_image, BinTable, Bitpix, CompressOptions, CompressionType, Error, FitsFile, Hdu,
    HduData, Header, HeaderValue, ImageData, Keyword, PixelData, Quantize,
};

fn assert_same_keywords(a: &[Keyword], b: &[Keyword]) {
    assert_eq!(a.len(), b.len());
    for (x, y) in a.iter().zip(b) {
        assert_eq!(x.name, y.name);
        assert_eq!(x.value, y.value);
        assert_eq!(x.comment, y.comment);
    }
}

fn options(algorithm: CompressionType, quantize: Option<&str>) -> CompressOptions {
    CompressOptions {
        algorithm,
        tile: Some(vec![3, 2]),
        quantize: quantize.map(|q| Real::new(q).unwrap()),
        dither: Quantize::SubtractiveDither1,
        dither_seed: Some(7),
        blocksize: 4,
    }
}

/// Every kind of keyword, with long strings, quotes and comments.
fn many_keywords() -> Header {
    let mut h = Header::new();
    h.set("SIMPLE", HeaderValue::Logical(true), Some("standard"));
    h.set("COUNT", HeaderValue::Integer(-12), None);
    h.set("RATE", HeaderValue::Float(Real::new("1.5E-3").unwrap()), Some("per second"));
    h.set("PAIR", HeaderValue::ComplexInteger(3, -4), None);
    h.set(
        "PHASE",
        HeaderValue::ComplexFloat(Real::new("1.5").unwrap(), Real::new("-2.25").unwrap()),
        None,
    );
    h.set("NOTHING", HeaderValue::Undefined, None);
    h.set("QUOTED", HeaderValue::String("it's a 'test'".into()), Some("quotes"));
    h.set("LONG", HeaderValue::String("0123456789".repeat(15)), Some("over several cards"));
    h.set("SPACED", HeaderValue::String("  front".into()), None);
    h.push(Keyword::commentary("HISTORY", "made by hand"));
    h.push(Keyword::commentary("COMMENT", "twice"));
    h.push(Keyword::commentary("COMMENT", "twice"));
    h
}

#[test]
fn header_is_read_as_written() {
    let h = many_keywords();
    let bytes = h.to_bytes();
    assert_eq!(bytes.len() % 2880, 0);
    let mut reader = ByteReader::new(&bytes);
    let back = Header::read_from(&mut reader).unwrap();
    assert_eq!(reader.position(), bytes.len());
    assert_same_keywords(h.iter(), back.iter());
}

#[test]
fn header_reading_stops_at_its_last_block() {
    let h = many_keywords();
    let mut bytes = h.to_bytes();
    let n = bytes.len();
    bytes.extend_from_slice(&[b'x'; 100]);
    let mut reader = ByteReader::new(&bytes);
    let back = Header::read_from(&mut reader).unwrap();
    assert_eq!(reader.position(), n);
    assert_same_keywords(h.iter(), back.iter());
}

#[test]
fn lookup_follows_set() {
    let mut h = Header::new();
    h.set("object", HeaderValue::String("M31".into()), None);
    h.set("EXPTIME", HeaderValue::Integer(30), None);
    h.set("OBJECT", HeaderValue::String("M33".into()), Some("galaxy"));
    assert_eq!(h.keywords.len(), 2);
    assert_eq!(h.get_string("Object"), Some("M33"));
    assert_eq!(h.get_int("EXPTIME"), Some(30));
    assert_eq!(h.get_int("OBJECT"), None);
}

fn three_hdus() -> FitsFile {
    let mut fits = FitsFile::with_primary_image(ImageData::new(
        vec![2, 2],
        PixelData::I16(vec![1, -2, 3, -4]),
    ));
    fits.primary_mut().header.set("OBJECT", HeaderValue::String("M31".into()), None);
    let table = BinTableBuilder::new()
        .add_column("ID", BinColumnType::J32(1))
        .add_column("LIST", BinColumnType::VarP('I'))
        .push_row(|row| {
            row.write_i32(-7);
            row.write_var_p(2, |heap| heap.extend_from_slice(&[0, 1, 255, 255]));
        })
        .build();
    fits.push_extension(Hdu::bintable_extension(table));
    let column = AsciiColumn {
        name: "NUM".into(),
        format: AsciiFormat::Iw(4),
        tbcol: 1,
        tscal: None,
        tzero: None,
        tunit: Some("m".into()),
    };
    let ascii = AsciiTable::build(vec![column], 2, b"  12 -34".to_vec());
    fits.push_extension(Hdu::ascii_table_extension(ascii));
    fits
}

fn assert_same_contents(fits: &FitsFile) {
    assert_eq!(fits.len(), 3);
    assert_eq!(fits.primary().header.get_string("OBJECT"), Some("M31"));
    match &fits.primary().data {
        HduData::Image(img) => {
            assert_eq!(img.axes, vec![2, 2]);
            assert_eq!(img.pixels, PixelData::I16(vec![1, -2, 3, -4]));
        }
        _ => panic!("expected an image"),
    }
    match &fits.extensions()[0].data {
        HduData::BinTable(t) => {
            assert_eq!(t.get_cell(0, 0).unwrap(), BinCellValue::I32(vec![-7]));
            assert_eq!(t.get_cell(0, 1).unwrap(), BinCellValue::I16(vec![1, -1]));
        }
        _ => panic!("expected a binary table"),
    }
    match &fits.extensions()[1].data {
        HduData::AsciiTable(t) => {
            assert_eq!(t.integer_at(0, 0).unwrap(), 12);
            assert_eq!(t.integer_at(1, 0).unwrap(), -34);
            assert_eq!(t.columns[0].tunit.as_deref(), Some("m"));
        }
        _ => panic!("expected an ASCII table"),
    }
}

#[test]
fn file_is_read_as_written() {
    let bytes = three_hdus().to_bytes().unwrap();
    assert_eq!(bytes.len() % 2880, 0);
    assert_same_contents(&FitsFile::from_bytes(&bytes).unwrap());
}

#[test]
fn stamped_file_is_read_as_written_and_verifies() {
    let bytes = three_hdus().to_bytes_with_checksum().unwrap();
    let back = FitsFile::from_bytes(&bytes).unwrap();
    assert_same_contents(&back);
    for hdu in back.iter() {
        assert!(hdu.header.find("CHECKSUM").is_some());
        hdu.verify_datasum().unwrap();
    }
    let mut at = 0;
    for hdu in three_hdus().iter() {
        let mut out = Vec::new();
        hdu.write_with_checksum(&mut out).unwrap();
        assert_eq!(checksum(&out), 0xffff_ffff);
        assert_eq!(&bytes[at..at + out.len()], &out[..]);
        at += out.len();
    }
    assert_eq!(at, bytes.len());
}

#[test]
fn a_changed_byte_is_noticed() {
    let mut out = Vec::new();
    three_hdus().primary().write_with_checksum(&mut out).unwrap();
    let n = out.len() - 2880;
    assert!(verify_hdu(&out[..n], &out[n..]));
    out[n + 1] ^= 1;
    assert!(!verify_hdu(&out[..n], &out[n..]));
    let back = FitsFile::from_bytes(&out).unwrap();
    assert!(matches!(
        back.primary().verify_datasum(),
        Err(Error::ChecksumMismatch { .. })
    ));
}

#[test]
fn checksum_of_parts() {
    let a = [1u8, 2, 3, 4, 250, 251, 252, 253];
    let b = [9u8, 8, 7, 6, 255, 255, 255, 255];
    let mut whole = a.to_vec();
    whole.extend_from_slice(&b);
    assert_eq!(checksum_accumulate(checksum(&a), &b), checksum(&whole));
    whole.extend_from_slice(&[0; 8]);
    assert_eq!(checksum_accumulate(checksum(&a), &b), checksum(&whole));
}

#[test]
fn checksum_text_round_trip() {
    for value in [0u32, 1, 0x3a3b_3c3d, 0x8000_0000, 868_229_149, u32::MAX] {
        for complement in [false, true] {
            let text = encode_checksum(value, complement);
            assert_eq!(text.len(), 16);
            assert!(text.bytes().all(|c| c.is_ascii_alphanumeric()));
            assert_eq!(decode_checksum(&text, complement), value);
        }
    }
}

#[test]
fn integer_compression_is_lossless() {
    let starts = vec![0usize; N_RANDOM];
    let images = [
        ImageData::new(vec![4, 3], PixelData::U8(vec![0, 255, 3, 4, 5, 6, 7, 8, 9, 10, 11, 12])),
        ImageData::new(
            vec![4, 3],
            PixelData::I16(vec![0, i16::MIN, i16::MAX, 4, 5, -6, 7, 8, 9, 10, 11, 12]),
        ),
        ImageData::new(
            vec![4, 3],
            PixelData::I32(vec![0, i32::MIN, i32::MAX, 4, 5, -6, 7, 8, 9, 10, 11, 12]),
        ),
    ];
    for algorithm in [CompressionType::Rice1, CompressionType::Gzip1, CompressionType::Gzip2] {
        for image in &images {
            let mut fits = FitsFile::with_empty_primary();
            let opts = options(algorithm, None);
            let hdu = compress_image(image, &opts, &starts, |_, _| (0, 0, vec![])).unwrap();
            fits.push_extension(hdu);
            let back = FitsFile::from_bytes(&fits.to_bytes().unwrap()).unwrap();
            let compressed = back.extensions()[0].as_compressed_image().unwrap();
            assert_eq!(compressed.geometry().num_tiles(), 4);
            let restored = compressed.decompress(&starts, |_, _, _| 0).unwrap();
            assert_eq!(restored.axes, image.axes);
            assert_eq!(restored.pixels, image.pixels);
        }
    }
}

#[test]
fn raw_float_compression_keeps_bit_patterns() {
    let values = [0.0f64, -0.0, 1.5, f64::INFINITY, f64::NAN, -1.0e300];
    let image = ImageData::new(
        vec![3, 2],
        PixelData::F64(values.iter().map(|v| v.to_bits()).collect()),
    );
    let starts = vec![0usize; N_RANDOM];
    let opts = options(CompressionType::Gzip1, None);
    let hdu = image.compress(&opts, &starts, |_, _| (0, 0, vec![])).unwrap();
    let restored =
        hdu.as_compressed_image().unwrap().decompress(&starts, |_, _, _| 0).unwrap();
    assert_eq!(restored.bitpix(), Bitpix::F64);
    assert_eq!(restored.pixels, image.pixels);
}

#[test]
fn quantized_tiles_are_kept() {
    let image = ImageData::new(vec![3, 2], PixelData::F32(vec![0; 6]));
    for algorithm in [CompressionType::Rice1, CompressionType::Gzip1, CompressionType::Gzip2] {
        let mut opts = options(algorithm, Some("4.0"));
        opts.tile = Some(vec![2, 2]);
        let tiles = [
            QuantizedTile {
                samples: vec![0, -5, i32::MAX as i64, i32::MIN as i64],
                scale: 0.5f64.to_bits(),
                zero: (-1.0f64).to_bits(),
            },
            QuantizedTile { samples: vec![7, 8], scale: 2.0f64.to_bits(), zero: 0 },
        ];
        let mut fits = FitsFile::with_empty_primary();
        fits.push_extension(compress_quantized(&image, &opts, &tiles).unwrap());
        let back = FitsFile::from_bytes(&fits.to_bytes().unwrap()).unwrap();
        let compressed = back.extensions()[0].as_compressed_image().unwrap();
        assert_eq!(compressed.zbitpix, -32);
        assert_eq!(compressed.quantize, Quantize::SubtractiveDither1);
        assert_eq!(compressed.zdither0, Some(7));
        let read = compressed.float_tiles().unwrap();
        assert_eq!(read.len(), 2);
        for (tile, written) in read.iter().zip(&tiles) {
            match tile {
                FloatTile::Quantized { samples, scale, zero, blank } => {
                    assert_eq!(samples, &written.samples);
                    assert_eq!(*scale, FloatBits::Double(written.scale));
                    assert_eq!(*zero, FloatBits::Double(written.zero));
                    assert_eq!(*blank, Some(NULL_VALUE));
                }
                FloatTile::Raw(_) => panic!("expected a quantized tile"),
            }
        }
        assert!(matches!(
            compressed.decompress_exact(),
            Err(Error::UnsupportedCompression(_))
        ));
        assert!(compress_quantized(&image, &opts, &tiles[..1]).is_err());
    }
}

#[test]
fn tiles_put_together_again() {
    let dims = [5usize, 4, 2];
    let ztile = [2usize, 3, 1];
    let full: Vec<i32> = (0..40).collect();
    let n: usize = tiles_per_axis_of(&dims, &ztile).iter().product();
    assert_eq!(n, 12);
    let tiles: Vec<Vec<i32>> = (0..n).map(|k| cut_tile(&full, &dims, &ztile, k)).collect();
    assert_eq!(tiles[0], vec![0, 1, 5, 6, 10, 11]);
    assert_eq!(tiles[5], vec![19]);
    for k in 0..n {
        assert_eq!(tiles[k].len(), tile_size(&dims, &ztile, k));
    }
    assert_eq!(assemble(&tiles, &dims, &ztile, -1), full);
}

#[test]
fn shuffle_is_inverted() {
    let raw: Vec<u8> = (0..24).collect();
    assert_eq!(gzip2_shuffle(&raw[..8], 4), vec![0, 4, 1, 5, 2, 6, 3, 7]);
    for bytepix in [1usize, 2, 4, 8] {
        assert_eq!(gzip2_unshuffle(&gzip2_shuffle(&raw, bytepix), bytepix), raw);
    }
}

#[test]
fn gzip_members_are_inflated() {
    let raw = b"aaaaaaaaaaaaaaaaaaaaaaaaaaaaaaaabbbbbbbbbbbbbbbbbbbbbbbbbbbb".to_vec();
    let member = gzip_deflate(&raw);
    assert_eq!(&member[..3], &[0x1f, 0x8b, 8]);
    assert!(member.len() < raw.len());
    assert_eq!(gzip_inflate(&member).unwrap(), raw);
}

#[test]
fn quantization_is_followed_back() {
    let starts: Vec<usize> = (0..N_RANDOM).map(|i| i % 500).collect();
    let tile = [f32::NAN, 0.0, -0.0, 2.5].map(|v| v.to_bits() as u64);
    let rounded = [0i64, 0, 0, 41];

    let plans = quantize_plan(Quantize::SubtractiveDither2, &tile, false, 3, Some(5), &starts);
    assert_eq!(
        plans,
        vec![
            QuantizePlan::Null,
            QuantizePlan::Zero,
            QuantizePlan::Zero,
            QuantizePlan::Dithered(10),
        ]
    );
    let samples = quantized_samples(&plans, &rounded);
    assert_eq!(samples, vec![NULL_VALUE, ZERO_VALUE, ZERO_VALUE, 41]);
    let back = unquantize_plan(
        Quantize::SubtractiveDither2,
        &samples,
        Some(NULL_VALUE),
        3,
        Some(5),
        &starts,
    );
    assert_eq!(
        back,
        vec![PixelPlan::Blank, PixelPlan::Zero, PixelPlan::Zero, PixelPlan::Dithered(41, 10)]
    );

    let plain = quantize_plan(Quantize::NoDither, &tile, false, 0, None, &starts);
    assert_eq!(plain[0], QuantizePlan::Null);
    assert_eq!(plain[1], QuantizePlan::Plain);
    let wide = [f64::NAN, -0.0, f64::INFINITY].map(|v| v.to_bits());
    assert_eq!(
        quantize_plan(Quantize::SubtractiveDither2, &wide, true, 0, None, &starts),
        vec![QuantizePlan::Null, QuantizePlan::Zero, QuantizePlan::Dithered(2)]
    );
}

#[test]
fn tables_keep_their_cells() {
    let table = BinTableBuilder::new()
        .add_column("FLAG", BinColumnType::Logical(1))
        .add_column("TEXT", BinColumnType::Char(5))
        .add_column("WORDS", BinColumnType::I16(2))
        .add_column("REAL", BinColumnType::D64(1))
        .push_row(|row| {
            row.write_bool(true);
            row.write_string("ab", 5);
            row.write_i16(-1);
            row.write_i16(258);
            row.write_f64(1.5f64.to_bits());
        })
        .build();
    assert_eq!(table.row_len, 18);
    let mut header = Header::new();
    table.fill_header(&mut header);
    let back = BinTable::from_header_and_data(&header, &table.to_bytes()).unwrap();
    assert_eq!(back.get_cell(0, 0).unwrap(), BinCellValue::Logical(vec![true]));
    assert_eq!(back.get_cell(0, 1).unwrap(), BinCellValue::String("ab".into()));
    assert_eq!(back.get_cell(0, 2).unwrap(), BinCellValue::I16(vec![-1, 258]));
    assert_eq!(back.get_cell(0, 3).unwrap(), BinCellValue::F64(vec![1.5f64.to_bits()]));
    assert!(back.get_cell(1, 0).is_err());
}

#[test]
fn scaling_is_the_callers() {
    let starts: Vec<usize> = vec![0; N_RANDOM];
    let image = ImageData::new(
        vec![2, 2],
        PixelData::F32([f32::NAN, 0.0, 1.0, 2.0].map(|v| v.to_bits()).to_vec()),
    );
    let mut opts = options(CompressionType::Rice1, Some("4.0"));
    opts.dither = Quantize::SubtractiveDither2;
    let hdu = compress_image(&image, &opts, &starts, |bits, plans| {
        assert_eq!(plans.len(), bits.len());
        (1.0f64.to_bits(), 0, bits.iter().map(|b| (b >> 20) as i64).collect())
    })
    .unwrap();
    let compressed = hdu.as_compressed_image().unwrap();
    let read = compressed
        .decompress(&starts, |plan, scale, zero| {
            assert_eq!(scale, FloatBits::Double(1.0f64.to_bits()));
            assert_eq!(zero, FloatBits::Double(0));
            match plan {
                PixelPlan::Blank => 100,
                PixelPlan::Zero => 200,
                PixelPlan::Plain(_) => 300,
                PixelPlan::Dithered(q, i) => (q as u64) * 10 + i as u64,
            }
        })
        .unwrap();
    let one = (1.0f32.to_bits() >> 20) * 10 + 2;
    let two = (2.0f32.to_bits() >> 20) * 10 + 3;
    assert_eq!(read.pixels, PixelData::F32(vec![100, 200, one, two]));

    let short = compress_image(&image, &opts, &starts, |_, _| (0, 0, vec![]));
    assert!(matches!(short, Err(Error::CompressionError(_))));
    let whole = ImageData::new(vec![2], PixelData::I16(vec![1, 2]));
    opts.tile = None;
    let wrong = compress_float_image(&whole, &opts, &starts, |_, _| (0, 0, vec![]));
    assert!(matches!(wrong, Err(Error::CompressionError(_))));
    assert!(compress_image(&whole, &opts, &starts, |_, _| (0, 0, vec![])).is_ok());
}

#[test]
fn writers_append_and_readers_go_on() {
    let fits = three_hdus();
    let mut out = vec![7u8; 5];
    fits.to_writer(&mut out).unwrap();
    assert_eq!(&out[..5], &[7; 5]);
    assert_eq!(&out[5..], &fits.to_bytes().unwrap()[..]);
    let mut reader = ByteReader::new(&out);
    reader.skip(5);
    assert_same_contents(&FitsFile::from_reader(&mut reader).unwrap());

    let mut stamped = Vec::new();
    fits.to_writer_with_checksum(&mut stamped).unwrap();
    assert_eq!(stamped, fits.to_bytes_with_checksum().unwrap());
    assert!(matches!(FitsFile::from_reader(&mut ByteReader::new(&[])), Err(Error::Io(_))));
}

#[test]
fn single_cards_are_read_as_written() {
    for kw in [
        Keyword::with_value("CONTINUE", HeaderValue::Integer(7), Some("a number")),
        Keyword::with_value("CONTINUE", HeaderValue::String("rest".into()), Some("a text")),
        Keyword::commentary("CONTINUE", "no string"),
        Keyword::with_value("OBJECT", HeaderValue::String("it's".into()), None),
        Keyword::commentary("COMMENT", "free text"),
    ] {
        let cards = kw.to_cards();
        assert_eq!(cards.len(), 1);
        let back = Keyword::parse(&cards[0]).unwrap();
        assert_same_keywords(&[kw], &[back]);
    }
}

#[test]
fn default_scales_are_not_kept() {
    let spelled = |s: &str| Some(Real::new(s).unwrap());
    let table = BinTableBuilder::new()
        .add_column_full("A", BinColumnType::J32(1), spelled("1.0"), spelled("0.0"), Some("m"))
        .add_column_full("B", BinColumnType::J32(1), spelled("2.5"), spelled("-1"), None)
        .push_row(|r| {
            r.write_i32(5);
            r.write_i32(6);
        })
        .build();
    let column = |tscal: &str, tzero: &str, tbcol: usize| AsciiColumn {
        name: "NUM".into(),
        format: AsciiFormat::Iw(2),
        tbcol,
        tscal: spelled(tscal),
        tzero: spelled(tzero),
        tunit: None,
    };
    let columns = vec![column("1", "0", 1), column("0.5", "3", 3)];
    let mut fits = FitsFile::with_empty_primary();
    fits.push_extension(Hdu::bintable_extension(table));
    fits.push_extension(Hdu::ascii_table_extension(AsciiTable::build(columns, 1, b"1234".to_vec())));
    let back = FitsFile::from_bytes(&fits.to_bytes().unwrap()).unwrap();

    let text = |r: &Option<Real>| r.as_ref().map(|x| x.text.clone());
    match &back.extensions()[0].data {
        HduData::BinTable(t) => {
            assert_eq!((text(&t.columns[0].tscal), text(&t.columns[0].tzero)), (None, None));
            assert_eq!(text(&t.columns[1].tscal), Some("2.5".to_string()));
            assert_eq!(text(&t.columns[1].tzero), Some("-1".to_string()));
            assert_eq!(t.get_cell(0, 0).unwrap(), BinCellValue::I32(vec![5]));
        }
        _ => panic!("expected a binary table"),
    }
    match &back.extensions()[1].data {
        HduData::AsciiTable(t) => {
            assert_eq!((text(&t.columns[0].tscal), text(&t.columns[0].tzero)), (None, None));
            assert_eq!(text(&t.columns[1].tscal), Some("0.5".to_string()));
            assert_eq!(t.integer_at(0, 1).unwrap(), 34);
        }
        _ => panic!("expected an ASCII table"),
    }
}
