use bmrc::{compress, decompress};

/// English prose used by the text tests.
const SAMPLE: &str = "It was a bright cold day in April, and the clocks were striking thirteen. \
The hallway smelt of boiled cabbage and old rag mats. At one end of it a coloured poster, too large \
for indoor display, had been tacked to the wall. It depicted simply an enormous face, more than a \
metre wide: the face of a man of about forty-five, with a heavy black moustache and ruggedly \
handsome features. The flat was seven flights up, and the lift was seldom working. Even at the best \
of times it was seldom working, and at present the electric current was cut off during daylight \
hours. It was part of the economy drive in preparation for Hate Week.\n\
Compression works by finding structure in data and describing it with fewer bits than the raw \
representation needs. A statistical compressor assigns a probability to every symbol it sees, and \
an entropy coder turns those probabilities into a bitstream whose length approaches the information \
content of the message. The better the model predicts what comes next, the shorter the output. \
Context models look at the bytes that came before; a match model looks for the last time the same \
context appeared and guesses that history repeats itself. A mixer learns, bit by bit, how much to \
trust each of these voices, and secondary estimation stages correct whatever bias remains.\n\
The old harbour town woke slowly. Fishing boats rocked against the quay, gulls argued over the \
remains of yesterday's catch, and the baker on the corner pulled the first loaves from his oven. \
Children ran along the sea wall on their way to school, their voices carried away by the wind. \
By nine o'clock the market square was full: farmers with crates of apples and potatoes, a woman \
selling honey from her own hives, and an old man who repaired clocks and watches at a folding table. \
Visitors wandered between the stalls, buying more than they needed and talking more than they bought.\n";

fn check_roundtrip(data: &[u8], level: u8) {
    let compressed = compress(data, level);
    let restored = decompress(&compressed).expect("decompress should succeed");
    assert_eq!(restored, data, "roundtrip mismatch at level {level}");
}

#[test]
fn empty_all_levels() {
    for level in 1..=10u8 {
        check_roundtrip(b"", level);
    }
}

#[test]
fn single_byte_all_levels() {
    for level in 1..=10u8 {
        check_roundtrip(b"X", level);
    }
}

#[test]
fn repetitive_text_all_levels() {
    let data = b"the quick brown fox jumps over the lazy dog. ".repeat(200);
    for level in 1..=10u8 {
        let compressed = compress(&data, level);
        check_roundtrip(&data, level);
        assert!(
            compressed.len() < data.len(),
            "level {level} did not compress repetitive text ({} -> {})",
            data.len(),
            compressed.len()
        );
    }
}

#[test]
fn english_like_text_all_levels() {
    let data = SAMPLE.as_bytes();
    for level in [1u8, 3, 6, 10] {
        check_roundtrip(data, level);
    }
}

#[test]
fn binary_data_all_levels() {
    // Structured binary data with some repeating patterns.
    let mut data = Vec::new();
    for i in 0u32..2000 {
        data.extend_from_slice(&i.to_le_bytes());
        if i % 7 == 0 {
            data.push(0xFF);
        }
    }
    for level in [1u8, 5, 10] {
        check_roundtrip(&data, level);
    }
}

#[test]
fn pseudo_random_data_does_not_expand_much() {
    let mut data = vec![0u8; 8192];
    let mut x: u32 = 0x1234_5678;
    for b in data.iter_mut() {
        x = x.wrapping_mul(1_103_515_245).wrapping_add(12345);
        *b = (x >> 24) as u8;
    }
    for level in [1u8, 5, 10] {
        let compressed = compress(&data, level);
        check_roundtrip(&data, level);
        assert!(
            compressed.len() <= data.len() + bmrc::HEADER_LEN,
            "level {level}: random data expanded too much ({} -> {})",
            data.len(),
            compressed.len()
        );
    }
}

#[test]
fn level_increases_compression_on_text() {
    let data = SAMPLE.as_bytes();
    let c1 = compress(data, 1).len();
    let c10 = compress(data, 10).len();
    assert!(
        c10 <= c1,
        "level 10 ({c10}) should compress at least as well as level 1 ({c1})"
    );
}

#[test]
fn english_text_compresses() {
    let data = SAMPLE.as_bytes();
    let c = compress(data, 6).len();
    assert!(c * 10 < data.len() * 7, "{} -> {}", data.len(), c);
}
