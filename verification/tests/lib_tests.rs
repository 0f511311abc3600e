use bmrc::{compress, compress_bwt, decompress, BmrcError, FLAG_BWT, FLAG_STORED, HEADER_LEN};

#[test]
fn lib_empty_input() {
    let c = compress(&[], 5);
    let d = decompress(&c).unwrap();
    assert!(d.is_empty());
}

#[test]
fn small_input_all_levels() {
    let data = b"AAAAAAAAAAAAAAAAAAAAAAAAAAAAAAAAAAAAAAAAAAAAAAAAAAAAAAA";
    for level in 1..=10u8 {
        let c = compress(data, level);
        let d = decompress(&c).unwrap();
        assert_eq!(d, data, "level {level}");
    }
}

#[test]
fn level_is_clamped() {
    let c0 = compress(b"hello world", 0);
    let c11 = compress(b"hello world", 11);
    let c1 = compress(b"hello world", 1);
    let c10 = compress(b"hello world", 10);
    assert_eq!(c0[4], 1);
    assert_eq!(c11[4], 10);
    assert_eq!(c0, c1);
    assert_eq!(c11, c10);
}

#[test]
fn incompressible_random_data_is_stored() {
    // PRNG-generated data should not expand by more than the header.
    let mut data = vec![0u8; 4096];
    let mut x: u32 = 0xDEADBEEF;
    for b in data.iter_mut() {
        x = x.wrapping_mul(1664525).wrapping_add(1013904223);
        *b = (x >> 24) as u8;
    }
    let c = compress(&data, 10);
    let d = decompress(&c).unwrap();
    assert_eq!(d, data);
    assert!(c.len() <= data.len() + HEADER_LEN);
}

#[test]
fn bad_magic_errors() {
    let err = decompress(b"not a bmrc stream at all!!").unwrap_err();
    assert_eq!(err, BmrcError::BadMagic);
}

#[test]
fn header_too_short_errors() {
    let err = decompress(b"NX").unwrap_err();
    assert_eq!(err, BmrcError::HeaderTooShort);
}

#[test]
fn bwt_compress_roundtrip_text() {
    let data = b"the quick brown fox jumps over the lazy dog. ".repeat(50);
    for level in [1u8, 5, 10] {
        let c = compress_bwt(&data, level);
        let d = decompress(&c).unwrap();
        assert_eq!(d, data.as_slice(), "BWT roundtrip failed at level {level}");
    }
}

#[test]
fn bwt_compress_falls_back_for_incompressible_data() {
    // Random-ish data: BWT pre-pass should not help, expect plain compress output.
    let mut data = vec![0u8; 200];
    let mut x: u32 = 0xCAFEBABE;
    for b in data.iter_mut() {
        x = x.wrapping_mul(1664525).wrapping_add(1013904223);
        *b = (x >> 24) as u8;
    }
    let c = compress_bwt(&data, 5);
    let d = decompress(&c).unwrap();
    assert_eq!(d, data);
}

#[test]
fn stored_stream_layout() {
    // Two bytes cannot be coded smaller than themselves: they are stored.
    let c = compress(b"ab", 3);
    assert_eq!(c.len(), HEADER_LEN + 2);
    assert_eq!(&c[0..4], b"BMR1");
    assert_eq!(c[4], 3);
    assert_eq!(c[5], FLAG_STORED);
    assert_eq!(&c[6..14], &[2, 0, 0, 0, 0, 0, 0, 0]);
    assert_eq!(&c[14..], b"ab");
}

#[test]
fn coded_stream_is_smaller_and_flagged() {
    let data = b"abcabcabcabcabcabcabcabcabcabcabcabcabcabcabcabcabcabc".repeat(20);
    let c = compress(&data, 6);
    assert_eq!(c[5], 0);
    assert!(c.len() < data.len());
    assert_eq!(decompress(&c).unwrap(), data);
}

#[test]
fn bwt_stream_is_flagged() {
    let data = b"the quick brown fox jumps over the lazy dog. ".repeat(50);
    let c = compress_bwt(&data, 5);
    assert_eq!(c[5], FLAG_BWT);
    assert_eq!(compress_bwt(b"", 5), compress(b"", 5));
}

#[test]
fn truncated_stored_stream_errors() {
    let mut c = compress(b"xy", 2);
    c.pop();
    assert_eq!(decompress(&c).unwrap_err(), BmrcError::Truncated);
    let mut b = b"BMR1\x05\x02\x05\x00\x00\x00\x00\x00\x00\x00".to_vec();
    b.extend_from_slice(&[1, 0]);
    assert_eq!(decompress(&b).unwrap_err(), BmrcError::Truncated);
}

#[test]
fn bwt_output_is_at_most_header_longer() {
    let inputs: Vec<Vec<u8>> = vec![
        Vec::new(),
        b"x".to_vec(),
        b"abcd".to_vec(),
        b"banana".to_vec(),
        b"to be or not to be, that is the question. ".repeat(30),
        (0u8..=255).collect(),
    ];
    for data in &inputs {
        for level in [0u8, 1, 5, 10, 200] {
            let c = compress_bwt(data, level);
            assert!(c.len() <= data.len() + HEADER_LEN);
            assert_eq!(&decompress(&c).unwrap(), data);
            let expected_level = if level < 1 { 1 } else if level > 10 { 10 } else { level };
            assert_eq!(c[4], expected_level);
        }
    }
}

#[test]
fn undecodable_streams_are_errors() {
    let text = b"mississippi mississippi mississippi mississippi".to_vec();

    // A coded stream announcing more bytes than one allocation can hold.
    let mut huge = compress(&text, 5);
    assert_eq!(huge[5], 0);
    huge[6..14].copy_from_slice(&u64::MAX.to_le_bytes());
    assert_eq!(decompress(&huge), Err(BmrcError::Truncated));

    // A stored stream announcing more than it holds.
    let mut stored = compress(b"ab", 5);
    assert_eq!(stored[5], FLAG_STORED);
    stored[6..14].copy_from_slice(&u64::MAX.to_le_bytes());
    assert_eq!(decompress(&stored), Err(BmrcError::Truncated));

    // A BWT stream whose primary index lies past its data.
    let mut bad = compress_bwt(&text, 5);
    assert_eq!(bad[5], FLAG_BWT);
    bad[14..18].copy_from_slice(&(text.len() as u32).to_le_bytes());
    assert_eq!(decompress(&bad), Err(BmrcError::Truncated));
    bad[14..18].copy_from_slice(&u32::MAX.to_le_bytes());
    assert_eq!(decompress(&bad), Err(BmrcError::Truncated));
}

#[test]
fn trailing_bytes_are_ignored() {
    let text = b"a rose is a rose is a rose is a rose".repeat(8);
    for level in [1u8, 6, 10] {
        for c in [compress(&text, level), compress_bwt(&text, level), compress(b"xy", level)] {
            let mut padded = c.clone();
            padded.extend_from_slice(b"trailing garbage \xff\x00");
            let expected = decompress(&c).unwrap();
            assert_eq!(decompress(&padded).unwrap(), expected);
        }
    }
}

#[test]
fn bwt_stream_or_plain_stream() {
    let inputs: Vec<Vec<u8>> = vec![
        b"banana".to_vec(),
        b"abracadabra abracadabra abracadabra abracadabra".to_vec(),
        (0u8..200).map(|i| i.wrapping_mul(37)).collect(),
    ];
    for data in &inputs {
        for level in [1u8, 7] {
            let c = compress_bwt(data, level);
            if c[5] == FLAG_BWT {
                assert!(c.len() < data.len() + HEADER_LEN);
            } else {
                assert_eq!(c, compress(data, level));
            }
        }
    }
}
