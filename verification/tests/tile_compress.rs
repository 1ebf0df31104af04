use fitskit::bintable::{BinColumnType, BinTableBuilder};
use fitskit::bitstream::BitReader;
use fitskit::dither::{
    random_seeds, PixelPlan, QuantizePlan, NULL_VALUE, N_RANDOM, ZERO_VALUE,
};
use fitskit::grid::{scatter_tile, unravel};
use fitskit::number::Real;
use fitskit::plio::plio_decompress;
use fitskit::rice::{
    rice_compress_i16, rice_compress_i32, rice_compress_i8, rice_decompress_i16,
    rice_decompress_i32, rice_decompress_i8, unzigzag,
};
use fitskit::tile_compress::FloatBits;
use fitskit::{
    CompressOptions, CompressedImage, CompressionType, Error, Header, HeaderValue, HduData,
    ImageData, PixelData, Quantize, TileGeometry,
};

/// Minimal MSB-first bit writer mirroring [`BitReader`], for building test inputs.
struct BitWriter {
    bytes: Vec<u8>,
    cur: u8,
    nbits: u32,
}
impl BitWriter {
    fn new() -> Self {
        BitWriter {
            bytes: Vec::new(),
            cur: 0,
            nbits: 0,
        }
    }
    fn put_bits(&mut self, val: u32, n: u32) {
        for i in (0..n).rev() {
            let bit = ((val >> i) & 1) as u8;
            self.cur = (self.cur << 1) | bit;
            self.nbits += 1;
            if self.nbits == 8 {
                self.bytes.push(self.cur);
                self.cur = 0;
                self.nbits = 0;
            }
        }
    }
    fn finish(mut self) -> Vec<u8> {
        if self.nbits > 0 {
            self.cur <<= 8 - self.nbits;
            self.bytes.push(self.cur);
        }
        self.bytes
    }
}

fn zigzag(v: i64) -> u64 {
    ((v << 1) ^ (v >> 63)) as u64
}

#[test]
fn unzigzag_round_trip() {
    for v in [-5i64, -1, 0, 1, 2, 100, -100, i32::MIN as i64, i32::MAX as i64] {
        assert_eq!(unzigzag(zigzag(v)), v);
    }
}

#[test]
fn plio_single_pixel_at_end_of_run() {
    // PLIO line list for a 512-pixel row with one pixel == 1 at index 178
    // (0-based), all else zero. Header word [2] = -100 (the PLIO magic, 0xFF9C)
    // forces the long-form length decode.
    let words: Vec<i16> = [0u16, 7, 0xFF9C, 9, 0, 0, 0, 20659, 333]
        .iter()
        .map(|&w| w as i16)
        .collect();
    let out = plio_decompress(&words, 512).unwrap();
    let mut expected = vec![0i32; 512];
    expected[178] = 1; // opcode 5 (run 179, last pixel set to pv=1)
    assert_eq!(out, expected);
}

#[test]
fn plio_empty_list_is_all_zero() {
    // A zero-length line list (lllen == 0) decodes to an all-zero tile.
    let words: Vec<i16> = [0u16, 7, 0xFF9C, 0, 0, 0, 0]
        .iter()
        .map(|&w| w as i16)
        .collect();
    let out = plio_decompress(&words, 16).unwrap();
    assert_eq!(out, vec![0i32; 16]);
}

#[test]
fn bit_reader_basic() {
    // 0b1011_0010, 0b1100_0000
    let data = [0b1011_0010u8, 0b1100_0000u8];
    let mut r = BitReader::new(&data);
    assert_eq!(r.read_bits(4).unwrap(), 0b1011);
    assert_eq!(r.read_bits(4).unwrap(), 0b0010);
    assert_eq!(r.read_bits(2).unwrap(), 0b11);
}

/// Hand-encode a small i32 RICE_1 stream (one block, fs known) and decode it.
///
/// The first value is written verbatim as the *seed*
/// (`lastpix = vals[0]`), and `nvals` differences are written — the first of which
/// is `vals[0] - lastpix == 0`. The decoder then reconstructs `array[0] = seed + 0`.
#[test]
fn rice_i32_single_block_roundtrip() {
    // Original values; encode diffs with a chosen fs so we control the layout.
    let vals: Vec<i32> = vec![1000, 1003, 1001, 1005, 1002];
    let fs: u32 = 2; // low bits per code
    let encoded = rice_encode_i32(&vals, fs);

    let decoded = rice_decompress_i32(&encoded, vals.len(), 32).unwrap();
    assert_eq!(decoded, vals);
}

/// Zero-difference (constant) block: fs encoded as 0 (fs_plus_1 = 0 -> fs = -1).
#[test]
fn rice_i32_zero_block() {
    let vals: Vec<i32> = vec![42, 42, 42, 42];
    let mut w = BitWriter::new();
    w.put_bits(vals[0] as u32, 32);
    w.put_bits(0, 5); // fs_plus_1 = 0 => fs = -1 => all-zero block
    let encoded = w.finish();
    let decoded = rice_decompress_i32(&encoded, vals.len(), 32).unwrap();
    assert_eq!(decoded, vals);
}

#[test]
fn tile_geometry_default_row_by_row() {
    let mut h = Header::new();
    h.set("ZNAXIS", HeaderValue::Integer(2), None);
    h.set("ZNAXIS1", HeaderValue::Integer(100), None);
    h.set("ZNAXIS2", HeaderValue::Integer(50), None);
    let g = TileGeometry::from_header(&h).unwrap();
    assert_eq!(g.znaxis, vec![100, 50]);
    assert_eq!(g.ztile, vec![100, 1]); // row-by-row default
    assert_eq!(g.num_tiles(), 50);
}

// --- tile reassembly geometry --------------------------------------------

#[test]
fn unravel_axis1_fastest() {
    // 3x2 grid of tiles: index increments axis-1 (x) fastest.
    let tpa = [3usize, 2];
    assert_eq!(unravel(0, &tpa), vec![0, 0]);
    assert_eq!(unravel(1, &tpa), vec![1, 0]);
    assert_eq!(unravel(2, &tpa), vec![2, 0]);
    assert_eq!(unravel(3, &tpa), vec![0, 1]);
    assert_eq!(unravel(5, &tpa), vec![2, 1]);
}

#[test]
fn scatter_full_tiles_2d() {
    // 4x4 image, 2x2 tiles => 2x2 grid. Each tile filled with its index*10+local.
    let image_dims = [4usize, 4];
    let ztile = [2usize, 2];
    let tiles_per_axis = [2usize, 2];
    let mut full = vec![-1i64; 16];
    for tile in 0..4 {
        let coords = unravel(tile, &tiles_per_axis);
        // tile-local values 0..4 (axis-1 fastest within the tile)
        let vals: Vec<i64> = (0..4).map(|l| (tile as i64) * 100 + l as i64).collect();
        scatter_tile(&mut full, &image_dims, &ztile, &[2, 2], &coords, &vals);
    }
    // Expected layout (row-major, axis-1 fastest):
    // row0: tile0[0] tile0[1] tile1[0] tile1[1]
    // row1: tile0[2] tile0[3] tile1[2] tile1[3]
    // row2: tile2[0] tile2[1] tile3[0] tile3[1]
    // row3: tile2[2] tile2[3] tile3[2] tile3[3]
    let expected = vec![
        0, 1, 100, 101, // row0
        2, 3, 102, 103, // row1
        200, 201, 300, 301, // row2
        202, 203, 302, 303, // row3
    ];
    assert_eq!(full, expected);
}

#[test]
fn scatter_edge_truncated_tiles() {
    // 3x3 image with 2x2 tiles => 2x2 grid, but edge tiles are 1 wide/tall.
    let image_dims = [3usize, 3];
    let ztile = [2usize, 2];
    let tiles_per_axis = [2usize, 2];
    // tile dims: (0,0)=2x2, (1,0)=1x2, (0,1)=2x1, (1,1)=1x1
    let tile_dims = [vec![2, 2], vec![1, 2], vec![2, 1], vec![1, 1]];
    let mut full = vec![-1i64; 9];
    for (tile, td) in tile_dims.iter().enumerate() {
        let coords = unravel(tile, &tiles_per_axis);
        let n: usize = td.iter().product();
        let vals: Vec<i64> = (0..n).map(|l| (tile as i64) * 100 + l as i64).collect();
        scatter_tile(&mut full, &image_dims, &ztile, td, &coords, &vals);
    }
    // No -1 should remain; every pixel covered exactly once.
    assert!(!full.contains(&-1));
    // Spot check origins: tile0 at (0,0)->index0; tile1 (x-tile 1) origin x=2 row0 => index2.
    assert_eq!(full[0], 0); // tile0 local0
    assert_eq!(full[2], 100); // tile1 local0
    assert_eq!(full[6], 200); // tile2 local0 (row2, x0 => index 6)
    assert_eq!(full[8], 300); // tile3 local0 (row2, x2 => index 8)
}

// --- end-to-end RICE_1 decompress ----------------------------------------

/// Build a one-block (<=32 values) i32 RICE_1 stream for `vals` with low-bits `fs`.
///
/// Writes `vals[0]` verbatim as the seed, sets
/// `lastpix = vals[0]`, then emits exactly `vals.len()` differences — the first
/// being `vals[0] - lastpix == 0`.
fn rice_encode_i32(vals: &[i32], fs: u32) -> Vec<u8> {
    let mut w = BitWriter::new();
    w.put_bits(vals[0] as u32, 32);
    w.put_bits(fs + 1, 5);
    let mut last = vals[0];
    for &v in vals {
        let diff = (v - last) as i64;
        last = v;
        let mapped = zigzag(diff);
        let high = (mapped >> fs) as u32;
        let low = (mapped & ((1 << fs) - 1)) as u32;
        for _ in 0..high {
            w.put_bits(0, 1);
        }
        w.put_bits(1, 1);
        w.put_bits(low, fs);
    }
    w.finish()
}

#[test]
fn end_to_end_rice1_i32_two_tiles() {
    // 4x1 image, tile = 2x1 => two row tiles of 2 pixels each.
    let tile0 = [1000i32, 1003];
    let tile1 = [50i32, 47];
    let enc0 = rice_encode_i32(&tile0, 2);
    let enc1 = rice_encode_i32(&tile1, 2);

    let table = BinTableBuilder::new()
        .add_column("COMPRESSED_DATA", BinColumnType::VarP('B'))
        .push_row(|r| r.write_var_p(enc0.len() as i32, |heap| heap.extend_from_slice(&enc0)))
        .push_row(|r| r.write_var_p(enc1.len() as i32, |heap| heap.extend_from_slice(&enc1)))
        .build();

    let mut h = Header::new();
    h.set("ZIMAGE", HeaderValue::Logical(true), None);
    h.set("ZCMPTYPE", HeaderValue::String("RICE_1".into()), None);
    h.set("ZBITPIX", HeaderValue::Integer(32), None);
    h.set("ZNAXIS", HeaderValue::Integer(1), None);
    h.set("ZNAXIS1", HeaderValue::Integer(4), None);
    h.set("ZTILE1", HeaderValue::Integer(2), None);
    // BYTEPIX = 4 for i32 RICE.
    h.set("ZNAME1", HeaderValue::String("BYTEPIX".into()), None);
    h.set("ZVAL1", HeaderValue::Integer(4), None);

    let cimg = CompressedImage::from_bintable(&h, &table).unwrap();
    assert_eq!(cimg.compression(), CompressionType::Rice1);
    assert_eq!(cimg.geometry().num_tiles(), 2);

    let img = cimg.decompress(&run_starts(), pixel_of).unwrap();
    assert_eq!(img.axes, vec![4]);
    match img.pixels {
        PixelData::I32(v) => {
            assert_eq!(v, vec![1000, 1003, 50, 47]);
        }
        other => panic!("expected I32, got {other:?}"),
    }
}

#[test]
fn end_to_end_gzip1_i16_one_tile() {
    // 4x1 i16 image, one row tile. GZIP_1 stores raw big-endian image integers.
    let vals: [i16; 4] = [100, -200, 300, -400];
    let mut raw = Vec::new();
    for v in vals {
        raw.extend_from_slice(&v.to_be_bytes());
    }
    // Wrap raw bytes as a gzip member (header + raw DEFLATE + trailer).
    let body = miniz_oxide::deflate::compress_to_vec(&raw, 6);
    let mut gz = vec![0x1f, 0x8b, 8, 0, 0, 0, 0, 0, 0, 0xff];
    gz.extend_from_slice(&body);
    let crc = crc32(&raw);
    gz.extend_from_slice(&crc.to_le_bytes());
    gz.extend_from_slice(&(raw.len() as u32).to_le_bytes());

    let table = BinTableBuilder::new()
        .add_column("COMPRESSED_DATA", BinColumnType::VarP('B'))
        .push_row(|r| r.write_var_p(gz.len() as i32, |heap| heap.extend_from_slice(&gz)))
        .build();

    let mut h = Header::new();
    h.set("ZIMAGE", HeaderValue::Logical(true), None);
    h.set("ZCMPTYPE", HeaderValue::String("GZIP_1".into()), None);
    h.set("ZBITPIX", HeaderValue::Integer(16), None);
    h.set("ZNAXIS", HeaderValue::Integer(1), None);
    h.set("ZNAXIS1", HeaderValue::Integer(4), None);

    let cimg = CompressedImage::from_bintable(&h, &table).unwrap();
    let img = cimg.decompress(&run_starts(), pixel_of).unwrap();
    match img.pixels {
        PixelData::I16(v) => assert_eq!(v, vec![100, -200, 300, -400]),
        other => panic!("expected I16, got {other:?}"),
    }
}

/// Minimal CRC32 (gzip/PNG polynomial) for building gzip test fixtures.
fn crc32(data: &[u8]) -> u32 {
    let mut crc: u32 = 0xffff_ffff;
    for &byte in data {
        crc ^= byte as u32;
        for _ in 0..8 {
            let mask = (crc & 1).wrapping_neg();
            crc = (crc >> 1) ^ (0xedb8_8320 & mask);
        }
    }
    !crc
}

/// Element `i` of the pseudo-random sequence.
fn fits_rand_value(i: usize) -> f32 {
    (random_seeds()[i] as f64 / 2_147_483_647.0) as f32
}

/// Where each run through the sequence starts.
fn run_starts() -> Vec<usize> {
    random_seeds()
        .iter()
        .map(|&s| ((s as f64 / 2_147_483_647.0) as f32 * 500.0) as usize)
        .collect()
}

#[test]
fn fits_rand_value_matches_cfitsio_checkpoint() {
    // The final seed must be 1043618065 after 10000 steps.
    let a = 16807.0f64;
    let m = 2_147_483_647.0f64;
    let mut seed = 1.0f64;
    for _ in 0..N_RANDOM {
        let temp = a * seed;
        seed = temp - m * ((temp / m) as i64 as f64);
    }
    assert_eq!(seed as i64, 1_043_618_065);
    assert_eq!(random_seeds()[N_RANDOM - 1], 1_043_618_065);
    // All table values lie in [0, 1).
    for i in [0usize, 1, 499, 5000, N_RANDOM - 1] {
        let v = fits_rand_value(i);
        assert!((0.0..1.0).contains(&v), "rand[{i}] = {v} out of range");
    }
}

/// The value of a scale or zero point.
fn float_of(b: &FloatBits) -> f64 {
    match b {
        FloatBits::Single(v) => f32::from_bits(*v) as f64,
        FloatBits::Double(v) => f64::from_bits(*v),
    }
}

/// The bit pattern of a 32-bit pixel.
fn pixel_of(plan: PixelPlan, scale: FloatBits, zero: FloatBits) -> u64 {
    let (scale, zero) = (float_of(&scale), float_of(&zero));
    let value = match plan {
        PixelPlan::Blank => f64::NAN,
        PixelPlan::Zero => 0.0,
        PixelPlan::Plain(q) => (q as f64).mul_add(scale, zero),
        PixelPlan::Dithered(q, i) => {
            (q as f64 - fits_rand_value(i) as f64 + 0.5).mul_add(scale, zero)
        }
    };
    (value as f32).to_bits() as u64
}

/// The pixels of a 32-bit floating-point image.
fn unquantized(cimg: &CompressedImage<'_>) -> Vec<f32> {
    match cimg.decompress(&run_starts(), pixel_of).unwrap().pixels {
        PixelData::F32(v) => v.iter().map(|&b| f32::from_bits(b)).collect(),
        other => panic!("expected F32, got {other:?}"),
    }
}

/// A scale and a zero point for a tile with four levels per unit, and its rounded values.
fn quantized(bits: &[u64], plans: &[QuantizePlan]) -> (u64, u64, Vec<i64>) {
    let q = 4.0;
    let values: Vec<f64> = bits.iter().map(|&b| f32::from_bits(b as u32) as f64).collect();
    let min = values.iter().cloned().fold(f64::INFINITY, f64::min);
    let max = values.iter().cloned().fold(f64::NEG_INFINITY, f64::max);
    let scale = (max - min).abs() / (q * 65536.0);
    let zero = values.iter().sum::<f64>() / values.len() as f64;
    let samples = values
        .iter()
        .zip(plans)
        .map(|(v, plan)| match plan {
            QuantizePlan::Dithered(i) => {
                ((v - zero) / scale + fits_rand_value(*i) as f64 - 0.5).round() as i64
            }
            _ => ((v - zero) / scale).round() as i64,
        })
        .collect();
    (scale.to_bits(), zero.to_bits(), samples)
}

#[test]
fn nodither_float_constant_tile() {
    // A NO_DITHER quantized float tile: value = q*scale + zero (no +0.5, no dither).
    // 2-pixel image, single row tile, quantized ints [10, 20], scale 0.5, zero 3.0.
    let q = [10i32, 20];
    let enc = rice_encode_i32(&q, 2);

    let table = BinTableBuilder::new()
        .add_column("COMPRESSED_DATA", BinColumnType::VarP('B'))
        .add_column("ZSCALE", BinColumnType::D64(1))
        .add_column("ZZERO", BinColumnType::D64(1))
        .push_row(|r| {
            r.write_var_p(enc.len() as i32, |heap| heap.extend_from_slice(&enc));
            r.write_f64(0.5f64.to_bits());
            r.write_f64(3.0f64.to_bits());
        })
        .build();

    let mut h = Header::new();
    h.set("ZIMAGE", HeaderValue::Logical(true), None);
    h.set("ZCMPTYPE", HeaderValue::String("RICE_1".into()), None);
    h.set("ZBITPIX", HeaderValue::Integer(-32), None);
    h.set("ZNAXIS", HeaderValue::Integer(1), None);
    h.set("ZNAXIS1", HeaderValue::Integer(2), None);
    h.set("ZQUANTIZ", HeaderValue::String("NO_DITHER".into()), None);
    h.set("ZNAME1", HeaderValue::String("BYTEPIX".into()), None);
    h.set("ZVAL1", HeaderValue::Integer(4), None);

    let cimg = CompressedImage::from_bintable(&h, &table).unwrap();
    let v = unquantized(&cimg);
    assert_eq!(v, vec![10.0 * 0.5 + 3.0, 20.0 * 0.5 + 3.0]);
}

#[test]
fn dither2_preserves_zero_and_blank_maps_to_nan() {
    // 3-pixel tile: [ZERO_VALUE, NULL/blank, 5]. DITHER_2 => [0.0, NaN, dithered].
    // Use NOCOMPRESS so the quantized ints are stored verbatim (RICE encoding of
    // these extreme values is awkward and unrelated to what we're testing here).
    let q = [ZERO_VALUE as i32, NULL_VALUE as i32, 5];
    let mut enc = Vec::new();
    for v in q {
        enc.extend_from_slice(&v.to_be_bytes());
    }

    let table = BinTableBuilder::new()
        .add_column("COMPRESSED_DATA", BinColumnType::VarP('B'))
        .add_column("ZSCALE", BinColumnType::D64(1))
        .add_column("ZZERO", BinColumnType::D64(1))
        .push_row(|r| {
            r.write_var_p(enc.len() as i32, |heap| heap.extend_from_slice(&enc));
            r.write_f64(2.0f64.to_bits());
            r.write_f64(1.0f64.to_bits());
        })
        .build();

    let mut h = Header::new();
    h.set("ZIMAGE", HeaderValue::Logical(true), None);
    h.set("ZCMPTYPE", HeaderValue::String("NOCOMPRESS".into()), None);
    h.set("ZBITPIX", HeaderValue::Integer(-32), None);
    h.set("ZNAXIS", HeaderValue::Integer(1), None);
    h.set("ZNAXIS1", HeaderValue::Integer(3), None);
    h.set("ZQUANTIZ", HeaderValue::String("SUBTRACTIVE_DITHER_2".into()), None);
    h.set("ZDITHER0", HeaderValue::Integer(5), None);
    h.set("ZBLANK", HeaderValue::Integer(NULL_VALUE), None);
    h.set("ZNAME1", HeaderValue::String("BYTEPIX".into()), None);
    h.set("ZVAL1", HeaderValue::Integer(4), None);

    let cimg = CompressedImage::from_bintable(&h, &table).unwrap();
    let v = unquantized(&cimg);
    assert_eq!(v[0], 0.0); // ZERO_VALUE preserved exactly
    assert!(v[1].is_nan()); // blank -> NaN
    assert!(v[2].is_finite() && v[2] != 0.0);
}

// --- RICE_1 encode ----------------------------------

/// The RICE encoder's output must decode, for a range of
/// difference magnitudes / signs / block boundaries, across all three BYTEPIX.
#[test]
fn rice_encode_decode_roundtrip_i32() {
    let cases: Vec<Vec<i32>> = vec![
        vec![0],
        vec![42, 42, 42, 42],                  // zero-diff block
        vec![1000, 1003, 1001, 1005, 1002],    // small diffs
        vec![i32::MIN, 0, i32::MAX, -1, 1],     // extreme diffs (verbatim path)
        (0..100).map(|i| (i * i) % 7 - 3).collect(), // > one block
        (0..200).map(|i: i32| (i - 100) * 17).collect(),
    ];
    for vals in cases {
        let enc = rice_compress_i32(&vals, 32);
        let dec = rice_decompress_i32(&enc, vals.len(), 32).unwrap();
        assert_eq!(dec, vals, "i32 roundtrip failed for {vals:?}");
    }
}

#[test]
fn rice_encode_decode_roundtrip_i16() {
    let vals: Vec<i16> = (0..300).map(|i| ((i * 31) % 251 - 120) as i16).collect();
    let enc = rice_compress_i16(&vals, 32);
    let dec = rice_decompress_i16(&enc, vals.len(), 32).unwrap();
    assert_eq!(dec, vals);
    // extremes
    let ex: Vec<i16> = vec![i16::MIN, i16::MAX, 0, -1, 1, i16::MIN];
    let enc = rice_compress_i16(&ex, 32);
    assert_eq!(rice_decompress_i16(&enc, ex.len(), 32).unwrap(), ex);
}

#[test]
fn rice_encode_decode_roundtrip_i8() {
    let vals: Vec<u8> = (0..400).map(|i| ((i * 7) % 256) as u8).collect();
    let enc = rice_compress_i8(&vals, 32);
    let dec = rice_decompress_i8(&enc, vals.len(), 32).unwrap();
    assert_eq!(dec, vals);
}

/// A non-default block size must round-trip too (the block boundary moves).
#[test]
fn rice_encode_blocksize_16() {
    let vals: Vec<i32> = (0..70).map(|i| (i * 3) % 11 - 5).collect();
    let enc = rice_compress_i32(&vals, 16);
    let dec = rice_decompress_i32(&enc, vals.len(), 16).unwrap();
    assert_eq!(dec, vals);
}

/// `ImageData::compress` (RICE_1) → `as_compressed_image().decompress()` must be a
/// byte-exact identity for an integer image, including a 2-D square tiling with
/// edge-truncated tiles.
#[test]
fn compress_image_rice_int_internal_roundtrip() {
    // 13x11 I16 image, value = mix of trend + noise; square 5x5 tiles (edges ragged).
    let w = 13usize;
    let h = 11usize;
    let pixels: Vec<i16> = (0..(w * h))
        .map(|i| (((i * 37) % 521) as i16) - 200)
        .collect();
    let img = ImageData::new(vec![w, h], PixelData::I16(pixels));

    for tile in [None, Some(vec![w, 1]), Some(vec![5, 5]), Some(vec![13, 11])] {
        let opts = CompressOptions {
            algorithm: CompressionType::Rice1,
            tile,
            ..Default::default()
        };
        let hdu = img.compress(&opts, &run_starts(), quantized).unwrap();
        assert!(matches!(hdu.data, HduData::BinTable(_)));
        let back = hdu
            .as_compressed_image()
            .expect("ZIMAGE detected")
            .decompress(&run_starts(), pixel_of)
            .unwrap();
        assert_eq!(back.axes, img.axes);
        assert_eq!(back.pixels.to_bytes(), img.pixels.to_bytes());
    }
}

#[test]
fn compress_image_rice_i32_and_u8_roundtrip() {
    let i32img = ImageData::new(
        vec![20, 3],
        PixelData::I32((0..60).map(|i| (i - 30) * 12345).collect()),
    );
    let hdu = i32img.compress(&CompressOptions::default(), &run_starts(), quantized).unwrap();
    let back = hdu.as_compressed_image().unwrap().decompress(&run_starts(), pixel_of).unwrap();
    assert_eq!(back.pixels.to_bytes(), i32img.pixels.to_bytes());

    let u8img = ImageData::new(
        vec![17, 4],
        PixelData::U8((0..68).map(|i| (i * 5 % 256) as u8).collect()),
    );
    let hdu = u8img.compress(&CompressOptions::default(), &run_starts(), quantized).unwrap();
    let back = hdu.as_compressed_image().unwrap().decompress(&run_starts(), pixel_of).unwrap();
    assert_eq!(back.pixels.to_bytes(), u8img.pixels.to_bytes());
}

#[test]
fn compress_rejects_unsupported_algorithms() {
    let img = ImageData::new(vec![4], PixelData::I16(vec![1, 2, 3, 4]));
    for alg in [
        CompressionType::Plio1,
        CompressionType::Hcompress1,
        CompressionType::NoCompress,
    ] {
        let opts = CompressOptions {
            algorithm: alg,
            ..Default::default()
        };
        assert!(matches!(
            img.compress(&opts, &run_starts(), quantized),
            Err(Error::UnsupportedCompression(_))
        ));
    }
    // 64-bit integer images are rejected.
    let i64img = ImageData::new(vec![3], PixelData::I64(vec![1, 2, 3]));
    assert!(i64img.compress(&CompressOptions::default(), &run_starts(), quantized).is_err());
}

#[test]
fn compress_image_gzip_int_roundtrip() {
    let img = ImageData::new(
        vec![15, 6],
        PixelData::I16((0..90).map(|i| (i * 13 % 400 - 200) as i16).collect()),
    );
    for alg in [CompressionType::Gzip1, CompressionType::Gzip2] {
        let opts = CompressOptions {
            algorithm: alg,
            ..Default::default()
        };
        let hdu = img.compress(&opts, &run_starts(), quantized).unwrap();
        let back = hdu.as_compressed_image().unwrap().decompress(&run_starts(), pixel_of).unwrap();
        assert_eq!(
            back.pixels.to_bytes(),
            img.pixels.to_bytes(),
            "{alg:?} int roundtrip"
        );
    }
}

#[test]
fn compress_image_gzip_lossless_float_roundtrip() {
    let pixels: Vec<f32> = (0..96).map(|i| (i as f32) * 0.125 - 6.0).collect();
    let img = ImageData::new(vec![12, 8], PixelData::F32(pixels.iter().map(|p| p.to_bits()).collect()));
    // Lossless float storage is GZIP_1 only (GZIP_2 float shuffle is unsupported).
    let opts = CompressOptions {
        algorithm: CompressionType::Gzip1,
        quantize: None, // lossless raw floats
        ..Default::default()
    };
    let hdu = img.compress(&opts, &run_starts(), quantized).unwrap();
    let back = hdu.as_compressed_image().unwrap().decompress(&run_starts(), pixel_of).unwrap();
    assert_eq!(
        back.pixels.to_bytes(),
        img.pixels.to_bytes(),
        "GZIP_1 lossless float roundtrip"
    );
    // GZIP_2 lossless float is rejected.
    let opts2 = CompressOptions {
        algorithm: CompressionType::Gzip2,
        quantize: None,
        ..Default::default()
    };
    assert!(matches!(
        img.compress(&opts2, &run_starts(), quantized),
        Err(Error::UnsupportedCompression(_))
    ));
}

/// Lossy quantized-float RICE encode must round-trip within ~scale tolerance.
#[test]
fn compress_image_rice_float_quantize_roundtrip() {
    let pixels: Vec<f32> = (0..256)
        .map(|i| ((i as f32) * 0.017).sin() * 100.0 + 50.0)
        .collect();
    let img = ImageData::new(
        vec![16, 16],
        PixelData::F32(pixels.iter().map(|p| p.to_bits()).collect()),
    );
    let opts = CompressOptions {
        algorithm: CompressionType::Rice1,
        tile: Some(vec![16, 4]),
        quantize: Some(Real::new("4.0").unwrap()),
        dither: Quantize::SubtractiveDither1,
        dither_seed: Some(5),
        ..Default::default()
    };
    let hdu = img.compress(&opts, &run_starts(), quantized).unwrap();
    let cimg = hdu.as_compressed_image().unwrap();
    let recon = unquantized(&cimg);
    assert_eq!(recon.len(), pixels.len());
    let range = 100.0f32; // amplitude
    let tol = range / 1000.0;
    for (i, (&o, &r)) in pixels.iter().zip(recon.iter()).enumerate() {
        assert!(
            (o - r).abs() <= tol,
            "pixel {i}: orig {o} recon {r} exceeds tol {tol}"
        );
    }
}
