use bmrc::predictor::{build_stretch_table, hash_slice, match_bit_prediction, squash, table_index, Predictor};
use bmrc::range_coder::{Decoder, Encoder};

fn roundtrip(data: &[u8], level: u8) -> Vec<u8> {
    let mut enc = Encoder::new();
    let mut pred = Predictor::new(level);
    for &byte in data {
        pred.start_byte();
        for i in (0..8).rev() {
            let bit = (byte >> i) & 1;
            let p = pred.predict();
            enc.encode_bit(bit, p);
            pred.update(bit);
        }
        pred.end_byte(byte);
    }
    let stream = enc.finish();

    let mut dec = Decoder::new(&stream);
    let mut pred = Predictor::new(level);
    let mut out = Vec::with_capacity(data.len());
    for _ in 0..data.len() {
        pred.start_byte();
        let mut byte = 0u8;
        for _ in 0..8 {
            let p = pred.predict();
            let bit = dec.decode_bit(p);
            pred.update(bit);
            byte = (byte << 1) | bit;
        }
        pred.end_byte(byte);
        out.push(byte);
    }
    out
}

#[test]
fn predictor_roundtrip_all_levels() {
    let data = b"the quick brown fox jumps over the lazy dog 0123456789 \
                  the quick brown fox jumps over the lazy dog 0123456789"
        .to_vec();
    for level in 1..=10u8 {
        let out = roundtrip(&data, level);
        assert_eq!(out, data, "mismatch at level {level}");
    }
}

#[test]
fn match_prediction_prefix() {
    // node = 1 (no bits coded yet): predicts MSB of the byte.
    assert_eq!(match_bit_prediction(1, 0b1010_0000), Some(1));
    assert_eq!(match_bit_prediction(1, 0b0010_0000), Some(0));

    // After coding a "1" bit (node = 0b11 = 3), prefix is "1".
    assert_eq!(match_bit_prediction(0b11, 0b1010_0000), Some(0));
    // After coding a "0" bit (node = 0b10 = 2), predicted byte with
    // MSB=1 no longer matches the prefix.
    assert_eq!(match_bit_prediction(0b10, 0b1010_0000), None);
}

#[test]
fn match_prediction_out_of_tree() {
    assert_eq!(match_bit_prediction(0, 0xFF), None);
    assert_eq!(match_bit_prediction(256, 0xFF), None);
    // Seven bits "1010000" coded, eighth bit of 0b1010_0001 is 1.
    assert_eq!(match_bit_prediction(0b1101_0000, 0b1010_0001), Some(1));
}

#[test]
fn squash_anchor_points() {
    assert_eq!(squash(0), 2047);
    assert_eq!(squash(-2048), 0);
    assert_eq!(squash(2048), 4095);
    assert_eq!(squash(-2047), 1);
    assert_eq!(squash(128), 2549);
    // Interpolation halfway between two anchors.
    assert_eq!(squash(64), (2047 * 64 + 2549 * 64 + 64) / 128);
}

#[test]
fn stretch_inverts_squash() {
    let t = build_stretch_table();
    assert_eq!(t.len(), 4096);
    for p in 1..4095i32 {
        let back = squash(t[p as usize]);
        assert!(back >= p, "squash(stretch({p})) = {back}");
        if t[p as usize] > -2047 {
            assert!(squash(t[p as usize] - 1) < p);
        }
    }
    assert_eq!(t[2047], 0);
    assert_eq!(t[0], -2047);
    assert_eq!(t[4095], 2047);
}

#[test]
fn fnv_hash() {
    assert_eq!(hash_slice(b""), 0xcbf2_9ce4_8422_2325);
    assert_eq!(hash_slice(b"a"), 0x1162_bb90_8601_ec8c);
}

#[test]
fn table_index_is_masked() {
    for node in 1..256usize {
        assert!(table_index(0x1234_5678_9abc_def0, node, 0xFFFF) <= 0xFFFF);
    }
    assert_eq!(table_index(7, 3, 0), 0);
}

#[test]
fn predictions_are_in_range_and_adapt() {
    let mut pred = Predictor::new(4);
    let mut last = 0;
    for _ in 0..200 {
        pred.start_byte();
        for _ in 0..8 {
            let p = pred.predict();
            assert!((1..=4095).contains(&p));
            last = p;
            pred.update(1);
        }
        pred.end_byte(0xFF);
    }
    // After a long run of ones the model predicts a one strongly.
    assert!(last > 3500, "p = {last}");
}

#[test]
fn squash_stretch_squash_is_squash() {
    let t = build_stretch_table();
    for x in -2047..=2047i32 {
        let p = squash(x);
        assert_eq!(squash(t[p as usize]), p, "at {x}");
    }
    for x in -2047..2047i32 {
        assert!(squash(x) <= squash(x + 1));
    }
}

#[test]
fn encoder_and_decoder_models_predict_alike() {
    let data = b"lock step lock step lock step: abcabcabc 123123123".to_vec();
    for level in [1u8, 4, 9] {
        let mut enc = Encoder::new();
        let mut pred = Predictor::new(level);
        let mut seen = Vec::new();
        for &byte in &data {
            pred.start_byte();
            for i in (0..8).rev() {
                let bit = (byte >> i) & 1;
                let p = pred.predict();
                seen.push(p);
                enc.encode_bit(bit, p);
                pred.update(bit);
            }
            pred.end_byte(byte);
        }
        let mut stream = enc.finish();
        stream.extend_from_slice(b"tail");
        let mut dec = Decoder::new(&stream);
        let mut pred = Predictor::new(level);
        let mut k = 0;
        for _ in 0..data.len() {
            pred.start_byte();
            let mut byte = 0u8;
            for _ in 0..8 {
                let p = pred.predict();
                assert_eq!(p, seen[k], "prediction {k} at level {level}");
                k += 1;
                let bit = dec.decode_bit(p);
                pred.update(bit);
                byte = (byte << 1) | bit;
            }
            pred.end_byte(byte);
        }
    }
}
