use bmrc::range_coder::{Decoder, Encoder};

#[test]
fn roundtrip_fixed_prob() {
    let bits: Vec<u8> = (0..10000).map(|i| ((i * 7 + 3) % 5 == 0) as u8).collect();
    let mut enc = Encoder::new();
    for &b in &bits {
        enc.encode_bit(b, 2048);
    }
    let data = enc.finish();

    let mut dec = Decoder::new(&data);
    for &b in &bits {
        assert_eq!(dec.decode_bit(2048), b);
    }
}

#[test]
fn roundtrip_varied_prob() {
    let mut enc = Encoder::new();
    let mut bits = Vec::new();
    let mut p: u32 = 1;
    for i in 0..5000u32 {
        let bit = (i % 3 == 0) as u8;
        bits.push((bit, p));
        enc.encode_bit(bit, p);
        p = ((p * 37 + 11) % 4094) + 1;
    }
    let data = enc.finish();

    let mut dec = Decoder::new(&data);
    for (bit, p) in bits {
        assert_eq!(dec.decode_bit(p), bit);
    }
}

#[test]
fn empty_stream_is_four_bytes() {
    // A fresh encoder flushes x1 = 0.
    assert_eq!(Encoder::new().finish(), vec![0, 0, 0, 0]);
    assert_eq!(Encoder::default().finish(), vec![0, 0, 0, 0]);
}

#[test]
fn skewed_probabilities_compress() {
    // 2000 zero bits at p1 = 1/4096 take far fewer than 250 bytes.
    let mut enc = Encoder::new();
    for _ in 0..2000 {
        enc.encode_bit(0, 1);
    }
    let data = enc.finish();
    assert!(data.len() < 20);
    let mut dec = Decoder::new(&data);
    for _ in 0..2000 {
        assert_eq!(dec.decode_bit(1), 0);
    }
}

#[test]
fn decoder_reads_zeros_past_the_end() {
    let mut dec = Decoder::new(&[]);
    // Window 0 lies in the lower part of any interval: every bit decodes as 1.
    for _ in 0..64 {
        assert_eq!(dec.decode_bit(2048), 1);
    }
}

#[test]
fn bytes_after_the_stream_change_nothing() {
    let mut enc = Encoder::new();
    let mut coded = Vec::new();
    let mut p: u32 = 7;
    for i in 0..3000u32 {
        let bit = ((i * 13 + 5) % 7 < 3) as u8;
        coded.push((bit, p));
        enc.encode_bit(bit, p);
        p = ((p * 53 + 29) % 4094) + 1;
    }
    let mut data = enc.finish();
    data.extend_from_slice(&[0xFF; 16]);
    let mut dec = Decoder::new(&data);
    for (bit, p) in coded {
        assert_eq!(dec.decode_bit(p), bit);
    }
}
