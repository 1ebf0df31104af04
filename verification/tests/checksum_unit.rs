use fitskit::checksum::{
    checksum, checksum_accumulate, datasum, decode_checksum, encode_checksum, ones_complement_add,
    stamp_hdu, verify_hdu, Checksum,
};
use fitskit::io_utils;
use fitskit::{Header, HeaderValue};


#[test]
fn checksum_empty() {
    assert_eq!(checksum(&[]), 0);
}

#[test]
fn checksum_zeros() {
    let data = vec![0u8; 2880];
    assert_eq!(checksum(&data), 0);
}

#[test]
fn checksum_chunked_matches_whole() {
    // Pseudo-random bytes, fed through the accumulator in odd-sized pieces
    // so partial words straddle every boundary.
    let mut x: u32 = 0x1234_5678;
    let data: Vec<u8> = (0..100_003)
        .map(|_| {
            x ^= x << 13;
            x ^= x >> 17;
            x ^= x << 5;
            x as u8
        })
        .collect();
    let whole = checksum(&data);
    for size in [1usize, 3, 4, 7, 4096, 65_537] {
        let mut acc = Checksum::new();
        for c in data.chunks(size) {
            acc.update(c);
        }
        assert_eq!(acc.finish(), whole, "chunk size {size}");
    }
    // ones_complement_add on 4-aligned pieces agrees too
    let (a, b) = data.split_at(40_000);
    assert_eq!(checksum_accumulate(checksum(a), b), whole);
}

#[test]
fn checksum_large_no_overflow() {
    // 1 MiB of 0xFF: every 16-bit word is 0xFFFF, so the sum of either
    // half is 0xFFFF * 262144 = 0x3FFF_C000_0 which overflows a u32 accumulator.
    // Ones-complement: each word contributes 0xFFFF_FFFF == 0 (mod 2^32-1),
    // and a non-zero multiple maps to all-ones.
    let data = vec![0xFFu8; 1 << 20];
    assert_eq!(checksum(&data), 0xFFFF_FFFF);
    // 1 MiB of 0xAB: 262144 words of 0xABAB_ABAB, reduced mod 2^32-1.
    let data = vec![0xABu8; 1 << 20];
    let expected = ((0xABAB_ABABu64 * 262_144) % 0xFFFF_FFFF) as u32;
    assert_eq!(checksum(&data), expected);
}

#[test]
fn checksum_deterministic() {
    let data: Vec<u8> = (0..2880).map(|i| (i % 256) as u8).collect();
    let c1 = checksum(&data);
    let c2 = checksum(&data);
    assert_eq!(c1, c2);
    assert_ne!(c1, 0);
}

#[test]
fn encode_produces_valid_ascii() {
    for val in [0u32, 1, 0xDEADBEEF, 0xFFFFFFFF, 0x12345678] {
        let s = encode_checksum(val, false);
        assert_eq!(s.len(), 16);
        for b in s.bytes() {
            assert!(
                b.is_ascii_alphanumeric(),
                "non-alphanumeric char {b:#x} in encoded checksum"
            );
        }
    }
}

#[test]
fn encode_complement_produces_valid_ascii() {
    for val in [0u32, 1, 0xDEADBEEF, 0xFFFFFFFF] {
        let s = encode_checksum(val, true);
        assert_eq!(s.len(), 16);
        for b in s.bytes() {
            assert!(b.is_ascii_alphanumeric());
        }
    }
}

#[test]
fn encode_decode_round_trip() {
    for val in [0u32, 1, 42, 0xDEADBEEF, 0xFFFFFFFF, 0x12345678, 2503531142] {
        let encoded = encode_checksum(val, false);
        let decoded = decode_checksum(&encoded, false);
        assert_eq!(decoded, val, "round-trip failed for {val:#x}");
    }
}

#[test]
fn encode_decode_complement_round_trip() {
    for val in [0u32, 1, 0xDEADBEEF, 0xFFFFFFFF] {
        let encoded = encode_checksum(val, true);
        let decoded = decode_checksum(&encoded, true);
        assert_eq!(decoded, val, "complement round-trip failed for {val:#x}");
    }
}

#[test]
fn stamp_and_verify() {
    let mut header = Header::new();
    header.set("SIMPLE", HeaderValue::Logical(true), Some("standard"));
    header.set("BITPIX", HeaderValue::Integer(8), None);
    header.set("NAXIS", HeaderValue::Integer(0), None);

    let data_bytes = vec![0u8; 0]; // no data
    let padded_data = io_utils::pad_to_block(&data_bytes);

    let header_bytes = stamp_hdu(&mut header, &padded_data).unwrap();

    // Verify the HDU
    assert!(verify_hdu(&header_bytes, &padded_data));
}

#[test]
fn stamp_and_verify_with_data() {
    let mut header = Header::new();
    header.set("SIMPLE", HeaderValue::Logical(true), Some("standard"));
    header.set("BITPIX", HeaderValue::Integer(8), None);
    header.set("NAXIS", HeaderValue::Integer(1), None);
    header.set("NAXIS1", HeaderValue::Integer(100), None);

    let data_bytes: Vec<u8> = (0..100).map(|i| (i * 3) as u8).collect();
    let padded_data = io_utils::pad_to_block(&data_bytes);

    let header_bytes = stamp_hdu(&mut header, &padded_data).unwrap();

    assert!(verify_hdu(&header_bytes, &padded_data));

    // Verify DATASUM is present and correct
    let dsum_str = header.get_string("DATASUM").unwrap();
    let dsum: u32 = dsum_str.parse().unwrap();
    assert_eq!(dsum, datasum(&padded_data));
}

#[test]
fn ones_complement_add_identity() {
    assert_eq!(ones_complement_add(0, 0), 0);
    assert_eq!(ones_complement_add(42, 0), 42);
    assert_eq!(ones_complement_add(0, 42), 42);
}

#[test]
fn ones_complement_add_complement() {
    // x + !x should give all ones
    let x = 0x12345678u32;
    let result = ones_complement_add(x, !x);
    assert_eq!(result, 0xFFFFFFFF);
}

#[test]
fn verify_corruption_detected() {
    let mut header = Header::new();
    header.set("SIMPLE", HeaderValue::Logical(true), Some("standard"));
    header.set("BITPIX", HeaderValue::Integer(8), None);
    header.set("NAXIS", HeaderValue::Integer(1), None);
    header.set("NAXIS1", HeaderValue::Integer(100), None);

    let data_bytes: Vec<u8> = (0..100).collect();
    let padded_data = io_utils::pad_to_block(&data_bytes);

    let header_bytes = stamp_hdu(&mut header, &padded_data).unwrap();

    // Corrupt the data
    let mut corrupted = padded_data.clone();
    corrupted[0] ^= 0xFF;

    // Verification should fail
    assert!(!verify_hdu(&header_bytes, &corrupted));
}
