use fitskit::ascii_table::{AsciiColumn, AsciiFormat, AsciiTable};
use fitskit::bintable::{BinColumnType, BinTableBuilder};
use fitskit::dither::N_RANDOM;
use fitskit::gzip::{gzip_deflate, gzip_inflate};
use fitskit::hcompress::hcompress_decompress;
use fitskit::number::Real;
use fitskit::plio::plio_decompress;
use fitskit::rice::rice_decompress_i32;
use fitskit::types::RECORD_SIZE;
use fitskit::{
    compress_image, BinTable, CompressOptions, CompressedImage, CompressionType, Error, FitsFile,
    Header, HeaderValue, ImageData, Keyword, PixelData, Quantize, Wcs,
};

fn message<T>(r: Result<T, Error>) -> String {
    match r {
        Err(e) => e.display(),
        Ok(_) => panic!("an error was expected"),
    }
}

fn card(s: &str) -> [u8; RECORD_SIZE] {
    let mut card = [b' '; RECORD_SIZE];
    card[..s.len()].copy_from_slice(s.as_bytes());
    card
}

/// The header of a compressed image of one axis.
fn compressed_header(name: &str, zbitpix: i64, axis: i64, tile: i64) -> Header {
    let mut h = Header::new();
    h.set("ZIMAGE", HeaderValue::Logical(true), None);
    h.set("ZCMPTYPE", HeaderValue::String(name.into()), None);
    h.set("ZBITPIX", HeaderValue::Integer(zbitpix), None);
    h.set("ZNAXIS", HeaderValue::Integer(1), None);
    h.set("ZNAXIS1", HeaderValue::Integer(axis), None);
    h.set("ZTILE1", HeaderValue::Integer(tile), None);
    h
}

fn byte_tiles(tiles: &[Vec<u8>]) -> BinTable {
    let mut builder = BinTableBuilder::new().add_column("COMPRESSED_DATA", BinColumnType::VarP('B'));
    for tile in tiles {
        builder = builder
            .push_row(|r| r.write_var_p(tile.len() as i32, |heap| heap.extend_from_slice(tile)));
    }
    builder.build()
}

fn decompression(h: &Header, table: &BinTable) -> String {
    let image = CompressedImage::from_bintable(h, table).unwrap();
    message(image.decompress(&[0; N_RANDOM], |_, _, _| 0))
}

fn compression(image: &ImageData, opts: &CompressOptions) -> String {
    message(compress_image(image, opts, &[0; N_RANDOM], |_, _| (0, 0, vec![])))
}

#[test]
fn input_that_ends() {
    assert_eq!(message(FitsFile::from_bytes(&[])), "I/O error: failed to fill whole buffer");
}

#[test]
fn malformed_values_are_described() {
    let mut bytes = card("OBJECT  = 'M31     '");
    bytes[12] = 0xff;
    assert_eq!(message(Keyword::parse(&bytes)), "invalid keyword: non-ASCII card image");
    for (text, reason) in [
        ("OBJECT  = 'M31", "unterminated string value"),
        ("PAIR    = (1, 2", "unterminated complex value"),
        ("PAIR    = (1)", "complex value must have two components"),
        ("PAIR    = (1, 2, 3)", "complex value must have two components"),
        ("PAIR    = (a, 2)", "invalid complex component"),
    ] {
        assert_eq!(message(Keyword::parse(&card(text))), format!("invalid keyword: {reason}"));
    }
}

#[test]
fn table_formats_are_repeated() {
    for (text, reason) in [
        ("12", "no type code in TFORM: 12"),
        ("99999999999999999999999J", "invalid repeat count: 99999999999999999999999J"),
        ("1P", "P/Q format needs element type: 1P"),
        ("3Z", "unknown BINTABLE type code: Z"),
    ] {
        assert_eq!(
            message(BinColumnType::parse(text)),
            format!("invalid table format: {reason}")
        );
    }
    for (text, reason) in [
        (" ", "empty TFORM"),
        ("Ax", "invalid Aw format: Ax"),
        ("I", "invalid Iw format: I"),
        ("Q5", "unknown ASCII TFORM code: Q5"),
        ("F10", "expected w.d format: F10"),
        ("E1.2.3", "expected w.d format: E1.2.3"),
        ("Fx.2", "invalid width: Fx.2"),
        (" D8.y ", "invalid decimals: D8.y"),
    ] {
        assert_eq!(message(AsciiFormat::parse(text)), format!("invalid table format: {reason}"));
    }
}

#[test]
fn cells_are_repeated() {
    let column = AsciiColumn {
        name: "NUM".into(),
        format: AsciiFormat::Iw(6),
        tbcol: 1,
        tscal: None,
        tzero: None,
        tunit: None,
    };
    let table = AsciiTable::build(vec![column], 1, b" 1x2  ".to_vec());
    assert_eq!(
        message(table.integer_at(0, 0)),
        "invalid table format: cannot parse integer: '1x2'"
    );
    assert_eq!(message(table.number_at(0, 0)), "invalid table format: cannot parse float: '1x2'");
    assert_eq!(
        message(table.get_cell_raw(0, 1)),
        "invalid FITS format: cell index out of bounds"
    );

    let odd = BinTableBuilder::new()
        .add_column("ODD", BinColumnType::VarP('Z'))
        .add_column("TEXT", BinColumnType::Char(2))
        .push_row(|r| {
            r.write_var_p(1, |heap| heap.push(1));
            r.write_bytes(&[0xff, 0xfe]);
        })
        .push_row(|r| {
            r.write_var_p(0, |_| {});
            r.write_bytes(b"ab");
        })
        .build();
    for row in 0..2 {
        assert_eq!(
            message(odd.get_cell(row, 0)),
            "invalid table format: unsupported VLA element type: Z"
        );
    }
    let complex = BinTableBuilder::new()
        .add_column("PAIRS", BinColumnType::VarP('C'))
        .push_row(|r| r.write_var_p(1, |heap| heap.extend_from_slice(&[0; 8])))
        .build();
    assert_eq!(message(complex.get_cell(0, 0)), "invalid table format: unsupported VLA type: C");
    assert_eq!(message(odd.get_cell(0, 1)), "invalid FITS format: non-UTF8 in char column");
}

#[test]
fn broken_streams_are_described() {
    let mut member = vec![0x1f, 0x8b, 8, 0, 0, 0, 0, 0, 0, 255];
    member.extend_from_slice(&[0xff; 16]);
    let error = miniz_oxide::inflate::decompress_to_vec(&[0xff; 8]).unwrap_err();
    assert_eq!(
        message(gzip_inflate(&member)),
        format!("compression error: DEFLATE inflate failed: {error:?}")
    );
    member[2] = 9;
    assert_eq!(
        message(gzip_inflate(&member)),
        "compression error: GZIP_1 unsupported compression method 9"
    );
    member[2] = 8;
    member[3] = 8;
    assert_eq!(
        message(gzip_inflate(&member)),
        "compression error: GZIP_1 truncated gzip header"
    );
    member[0] = 0;
    assert_eq!(
        message(gzip_inflate(&member)),
        "compression error: GZIP_1 tile is not a valid gzip member (bad magic)"
    );
    assert_eq!(
        message(rice_decompress_i32(&[1, 2], 3, 32)),
        "compression error: RICE: unexpected end of stream"
    );
    assert_eq!(
        message(plio_decompress(&[1, 2], 4)),
        "compression error: PLIO_1 line list too short (need >= 3 header words)"
    );
    assert_eq!(
        message(plio_decompress(&[0, 5, -100, 6], 4)),
        "compression error: PLIO_1 long-form line list too short"
    );
    assert_eq!(
        message(plio_decompress(&[0, 0, 4, 0x1001], 4)),
        "compression error: PLIO_1 truncated high-value instruction"
    );
    assert_eq!(
        message(hcompress_decompress(&[0xdd], false, 0)),
        "compression error: HCOMPRESS: unexpected end of stream (qread)"
    );
    assert_eq!(
        message(hcompress_decompress(&[1, 2, 3], false, 0)),
        "compression error: HCOMPRESS: bad magic code"
    );
}

#[test]
fn tiles_are_numbered_and_counted() {
    let h = compressed_header("NOCOMPRESS", 16, 4, 2);
    let table = byte_tiles(&[vec![0, 1, 0, 2]]);
    assert_eq!(
        decompression(&h, &table),
        "compression error: compressed image expects 2 tiles but BINTABLE has 1 rows"
    );
    let table = byte_tiles(&[vec![0, 1, 0, 2], vec![0, 3, 0]]);
    assert_eq!(
        decompression(&h, &table),
        "compression error: tile has 1 integers, expected 2"
    );
    let nameless = BinTableBuilder::new()
        .add_column("OTHER", BinColumnType::Byte(1))
        .push_row(|r| r.write_u8(1))
        .push_row(|r| r.write_u8(2))
        .build();
    assert_eq!(
        decompression(&h, &nameless),
        "compression error: compressed image has no COMPRESSED_DATA column"
    );

    let mut rice = compressed_header("RICE_1", 16, 2, 2);
    rice.set("ZNAME1", HeaderValue::String("BYTEPIX".into()), None);
    rice.set("ZVAL1", HeaderValue::Integer(3), None);
    assert_eq!(
        decompression(&rice, &byte_tiles(&[vec![0, 1]])),
        "compression error: RICE_1 BYTEPIX=3 not supported (expected 1, 2, or 4)"
    );

    let raw = gzip_deflate(&[1, 2, 3]);
    assert_eq!(
        decompression(&compressed_header("GZIP_1", -64, 2, 2), &byte_tiles(&[raw.clone()])),
        "compression error: raw float tile has 3 bytes, expected at least 16"
    );
    assert_eq!(
        decompression(&compressed_header("GZIP_1", 16, 2, 2), &byte_tiles(&[raw])),
        "compression error: tile has 1 integers, expected 2"
    );
    assert_eq!(
        decompression(
            &compressed_header("GZIP_1", -32, 2, 1),
            &byte_tiles(&[gzip_deflate(&[0, 0, 0, 0]), vec![]])
        ),
        "compression error: float tile 1 has no quantization scale and no raw-float fallback data"
    );
    let float = compressed_header("GZIP_1", -32, 2, 1);
    let table = byte_tiles(&[vec![], vec![]]);
    let view = CompressedImage::from_bintable(&float, &table).unwrap();
    assert_eq!(
        message(view.assemble_floats(&[vec![1], vec![2, 3]])),
        "compression error: float tile 1 produced 2 values, expected 1"
    );
}

#[test]
fn hcompress_tiles_of_another_size() {
    // Two by two pixels, all zero: no bit planes.
    let mut stream = vec![0xdd, 0x99];
    stream.extend_from_slice(&[0, 0, 0, 2, 0, 0, 0, 2, 0, 0, 0, 1]);
    stream.extend_from_slice(&[0; 11]);
    // Four quadrants without planes, the end mark and no signs.
    stream.push(0);
    stream.push(0);
    let (pixels, nx, ny) = hcompress_decompress(&stream, false, 0).unwrap();
    assert_eq!((pixels, nx, ny), (vec![0; 4], 2, 2));
    assert_eq!(
        message(hcompress_decompress(&stream, false, 1)),
        "unsupported compression: HCOMPRESS_1 SMOOTH != 0 is not supported"
    );
    assert_eq!(
        decompression(&compressed_header("HCOMPRESS_1", 16, 3, 3), &byte_tiles(&[stream])),
        "compression error: HCOMPRESS tile size 2x2 = 4 != expected 3"
    );
}

#[test]
fn cells_of_another_kind_are_shown() {
    let cell = |format: BinColumnType, bytes: &[u8]| {
        BinTableBuilder::new()
            .add_column("COMPRESSED_DATA", format)
            .push_row(|r| r.write_bytes(bytes))
            .build()
    };
    let h = compressed_header("GZIP_1", 16, 1, 1);
    for (format, bytes, shown) in [
        (BinColumnType::I16(2), vec![0, 1, 0xff, 0xfe], "I16([1, -2])"),
        (BinColumnType::J32(1), vec![0, 0, 1, 0], "I32([256])"),
        (BinColumnType::K64(1), vec![0xff; 8], "I64([-1])"),
        (BinColumnType::Logical(2), vec![b'T', b'F'], "Logical([true, false])"),
        (BinColumnType::Char(3), vec![b'a', b'"', b'b'], "String(\"a\\\"b\")"),
        (BinColumnType::Bit(12), vec![0xab, 0xc0], "Bits([171, 192], 12)"),
        (BinColumnType::D64(1), vec![0; 8], "F64"),
    ] {
        assert_eq!(
            decompression(&h, &cell(format, &bytes)),
            format!("compression error: COMPRESSED_DATA cell is not a byte VLA: {shown}")
        );
    }
    assert_eq!(
        decompression(
            &compressed_header("PLIO_1", 16, 1, 1),
            &cell(BinColumnType::J32(2), &[0, 0, 0, 1, 0, 0, 0, 2])
        ),
        "compression error: PLIO_1 COMPRESSED_DATA cell is not an i16 VLA: I32([1, 2])"
    );
}

#[test]
fn images_that_cannot_be_compressed() {
    let opts = |algorithm, tile| CompressOptions { algorithm, tile, ..CompressOptions::default() };
    let image = ImageData::new(vec![2, 2], PixelData::I16(vec![1, 2, 3, 4]));
    assert_eq!(
        compression(&image, &opts(CompressionType::Hcompress1, None)),
        "unsupported compression: Hcompress1 encoding is not supported (only RICE_1, GZIP_1, GZIP_2)"
    );
    assert_eq!(
        compression(&image, &opts(CompressionType::Rice1, Some(vec![2]))),
        "compression error: tile shape has 1 axes but image has 2"
    );
    let short = ImageData::new(vec![2, 3], PixelData::I16(vec![1, 2, 3, 4]));
    assert_eq!(
        compression(&short, &opts(CompressionType::Rice1, None)),
        "compression error: image has 4 pixels but axes imply 6"
    );
    let none = ImageData::new(vec![], PixelData::I16(vec![]));
    assert_eq!(
        compression(&none, &opts(CompressionType::Rice1, None)),
        "compression error: cannot compress an image with zero axes"
    );
    let wide = ImageData::new(vec![1], PixelData::I64(vec![1]));
    assert_eq!(
        compression(&wide, &opts(CompressionType::Gzip1, None)),
        "compression error: RICE_1/GZIP tile compression of 64-bit integer images is not supported"
    );
    let float = ImageData::new(vec![1], PixelData::F32(vec![0]));
    let mut lossless = opts(CompressionType::Gzip2, None);
    lossless.quantize = None;
    assert_eq!(
        compression(&float, &lossless),
        "unsupported compression: lossless float compression (quantize=None) needs GZIP_1, not Gzip2"
    );
    assert_eq!(message(CompressionType::parse(" zip ")), "unsupported compression: ZIP");
    assert_eq!(message(Quantize::parse(Some("round"))), "unsupported compression: ZQUANTIZ=ROUND");
    let table = byte_tiles(&[]);
    assert_eq!(
        message(CompressedImage::from_bintable(&Header::new(), &table)),
        "compression error: header is not a tile-compressed image (ZIMAGE != T)"
    );
}

#[test]
fn coordinates_that_are_missing() {
    let text = |s: &str| HeaderValue::String(s.into());
    let number = || HeaderValue::Float(Real::new("1.5").unwrap());
    let mut h = Header::new();
    assert_eq!(message(Wcs::from_header(&h)), "WCS error: missing CTYPE1");
    h.set("CTYPE1", text("RA---TAN"), None);
    assert_eq!(message(Wcs::from_header(&h)), "WCS error: missing CTYPE2");
    h.set("CTYPE2", text("DEC--SIN"), None);
    assert_eq!(
        message(Wcs::from_header(&h)),
        "WCS error: CTYPE1/CTYPE2 projection codes differ: 'TAN' vs 'SIN'"
    );
    h.set("CTYPE2", text("DEC--TAN-SIP"), None);
    assert_eq!(
        message(Wcs::from_header(&h)),
        "unsupported WCS: SIP distortion (CTYPE -SIP) is not supported"
    );
    h.set("CTYPE1", text("RA---XYZ"), None);
    h.set("CTYPE2", text("DEC--XYZ"), None);
    assert_eq!(
        message(Wcs::from_header(&h)),
        "unsupported WCS: unsupported projection code 'XYZ'"
    );
    h.set("CTYPE1", text("RA---TAN"), None);
    h.set("CTYPE2", text("DEC--TAN"), None);
    h.set("CUNIT2", text(" rad "), None);
    assert_eq!(
        message(Wcs::from_header(&h)),
        "unsupported WCS: non-degree CUNIT2 = 'rad' is not supported"
    );
    h.set("CUNIT2", text("deg"), None);
    for name in ["CRVAL1", "CRVAL2", "CRPIX1", "CRPIX2"] {
        assert_eq!(message(Wcs::from_header(&h)), format!("WCS error: missing {name}"));
        h.set(name, number(), None);
    }
    assert_eq!(
        message(Wcs::from_header(&h)),
        "WCS error: missing CDELT1 (and no CD matrix)"
    );
    h.set("CDELT1", number(), None);
    assert_eq!(
        message(Wcs::from_header(&h)),
        "WCS error: missing CDELT2 (and no CD matrix)"
    );
}
