use bmrc::bwt::{bwt_decode, bwt_encode};

fn roundtrip(data: &[u8]) {
    let (bwt, idx) = bwt_encode(data);
    let recovered = bwt_decode(&bwt, idx);
    assert_eq!(recovered, data);
}

#[test]
fn empty() {
    roundtrip(b"");
}

#[test]
fn bwt_single_byte() {
    roundtrip(b"A");
}

#[test]
fn known_banana() {
    // "banana" -> BWT "nnbaaa", primary index 3
    let (bwt, idx) = bwt_encode(b"banana");
    assert_eq!(&bwt, b"nnbaaa");
    assert_eq!(idx, 3);
    roundtrip(b"banana");
}

#[test]
fn all_same_bytes() {
    roundtrip(b"aaaaaaaaaa");
}

#[test]
fn repetitive_text() {
    roundtrip(&b"the quick brown fox jumps over the lazy dog. ".repeat(20));
}

#[test]
fn binary_data() {
    let data: Vec<u8> = (0u8..=255).cycle().take(512).collect();
    roundtrip(&data);
}

#[test]
fn bwt_of_periodic_input_points_at_first_equal_row() {
    // Every rotation of "abab" equals "abab" or "baba"; the primary index
    // is the first row holding "abab", though row 1 decodes as well.
    let (bwt, idx) = bwt_encode(b"abab");
    assert_eq!(&bwt, b"bbaa");
    assert_eq!(idx, 0);
    assert_eq!(bwt_decode(&bwt, idx), b"abab");
    assert_eq!(bwt_decode(&bwt, 1), b"abab");
    let (bwt, idx) = bwt_encode(b"aaaaaaaaaa");
    assert_eq!(&bwt, b"aaaaaaaaaa");
    assert_eq!(idx, 0);
}

#[test]
fn bwt_decode_walks_lf_mapping() {
    // "nnbaaa" with primary row 3 is the transform of "banana".
    assert_eq!(bwt_decode(b"nnbaaa", 3), b"banana");
}

#[test]
fn rotating_the_input_keeps_the_transform() {
    let data = b"the quick brown fox jumps over the lazy dog".to_vec();
    let (bwt, idx) = bwt_encode(&data);
    for k in 0..data.len() {
        let mut r = data[k..].to_vec();
        r.extend_from_slice(&data[..k]);
        let (rb, ri) = bwt_encode(&r);
        assert_eq!(rb, bwt, "rotation by {k}");
        assert_eq!(bwt_decode(&rb, ri), r);
        if k > 0 {
            assert_ne!(ri, idx);
        }
    }
}
