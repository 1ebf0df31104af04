use fitskit::io_utils::ByteReader;
use fitskit::{Bitpix, PixelData};

const IO_CHUNK: usize = 1 << 20;

#[test]
fn pixel_data_round_trip_u8() {
    let data = vec![1u8, 2, 3, 4, 5];
    let pixels = PixelData::U8(data.clone());
    let bytes = pixels.to_bytes();
    let back = PixelData::from_bytes(Bitpix::U8, &bytes).unwrap();
    if let PixelData::U8(v) = back {
        assert_eq!(v, data);
    } else {
        panic!("wrong type");
    }
}

#[test]
fn pixel_data_round_trip_i16() {
    let data = vec![-1000i16, 0, 1000, i16::MIN, i16::MAX];
    let pixels = PixelData::I16(data.clone());
    let bytes = pixels.to_bytes();
    let back = PixelData::from_bytes(Bitpix::I16, &bytes).unwrap();
    if let PixelData::I16(v) = back {
        assert_eq!(v, data);
    } else {
        panic!("wrong type");
    }
}

#[test]
fn pixel_data_round_trip_f32() {
    let data = vec![1.5f32, -3.125, 0.0, f32::MAX];
    let pixels = PixelData::F32(data.iter().map(|v| v.to_bits()).collect());
    let bytes = pixels.to_bytes();
    let back = PixelData::from_bytes(Bitpix::F32, &bytes).unwrap();
    if let PixelData::F32(v) = back {
        let v: Vec<f32> = v.iter().map(|&b| f32::from_bits(b)).collect();
        assert_eq!(v, data);
    } else {
        panic!("wrong type");
    }
}

#[test]
fn stream_round_trip_all_types_across_chunks() {
    // More than one IO_CHUNK of bytes for every element size, so the
    // chunk loops take several iterations.
    let n = IO_CHUNK / 2 + 123;
    let cases = vec![
        PixelData::U8((0..n).map(|i| i as u8).collect()),
        PixelData::I16((0..n).map(|i| i as i16).collect()),
        PixelData::I32((0..n).map(|i| (i as i32).wrapping_mul(7919)).collect()),
        PixelData::I64(
            (0..n)
                .map(|i| (i as i64).wrapping_mul(-1_000_003))
                .collect(),
        ),
        PixelData::F32((0..n).map(|i| (i as f32 * 0.5).to_bits()).collect()),
        PixelData::F64((0..n).map(|i| (i as f64 * -0.25).to_bits()).collect()),
    ];
    for px in cases {
        let direct = px.to_bytes();
        let mut streamed = Vec::new();
        px.write_to(&mut streamed).unwrap();
        assert_eq!(streamed, direct);
        assert_eq!(streamed.len(), px.byte_len());

        let mut cursor = ByteReader::new(&streamed);
        let back = PixelData::read_from(&mut cursor, px.bitpix(), n).unwrap();
        assert_eq!(back.to_bytes(), direct);
        let back2 = PixelData::from_bytes(px.bitpix(), &streamed).unwrap();
        assert_eq!(back2.to_bytes(), direct);
    }
}
