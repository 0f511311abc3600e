use bmrc::parallel::{assemble_parallel, join_blocks, parse_parallel, split_blocks, DEFAULT_BLOCK_SIZE, PARALLEL_MAGIC};
use bmrc::{compress, decompress, BmrcError};

/// Compresses block by block, in order, and wraps the result in a `.bmrp`
/// envelope.
fn compress_blocks(data: &[u8], level: u8, block_size: Option<usize>) -> Vec<u8> {
    let blocks = split_blocks(data, block_size);
    let compressed: Vec<Vec<u8>> = blocks.iter().map(|b| compress(b, level)).collect();
    assemble_parallel(&compressed)
}

fn decompress_blocks(data: &[u8]) -> Result<Vec<u8>, BmrcError> {
    let blocks = parse_parallel(data)?;
    join_blocks(blocks.iter().map(|b| decompress(b)).collect())
}

fn roundtrip(data: &[u8], level: u8, block_size: Option<usize>) {
    let compressed = compress_blocks(data, level, block_size);
    let restored = decompress_blocks(&compressed).expect("decompress failed");
    assert_eq!(restored, data);
}

#[test]
fn parallel_empty_input() {
    roundtrip(b"", 5, None);
}

#[test]
fn parallel_single_byte() {
    roundtrip(b"X", 3, None);
}

#[test]
fn exactly_one_block() {
    let data = b"hello world".repeat(100);
    roundtrip(&data, 4, Some(data.len() + 1));
}

#[test]
fn multiple_blocks() {
    let data = b"the quick brown fox jumps over the lazy dog. ".repeat(500);
    roundtrip(&data, 5, Some(1024));
}

#[test]
fn block_boundary_exact() {
    let data = b"ABCD".repeat(256);
    roundtrip(&data, 3, Some(512));
}

#[test]
fn block_size_one() {
    roundtrip(b"abc", 1, Some(1));
}

#[test]
fn all_levels_roundtrip() {
    let data = b"BMRC parallel compression test data -- ".repeat(200);
    for level in 1..=10u8 {
        roundtrip(&data, level, Some(8 * 1024));
    }
}

#[test]
fn bad_magic_rejected() {
    let err = decompress_blocks(b"XXXX\x01\x00\x00\x00").unwrap_err();
    assert_eq!(err, BmrcError::BadMagic);
}

#[test]
fn too_short_rejected() {
    let err = decompress_blocks(b"BMR").unwrap_err();
    assert_eq!(err, BmrcError::HeaderTooShort);
}

#[test]
fn truncated_block_table_rejected() {
    // Claims 10 blocks but provides no size table.
    let mut bad = Vec::new();
    bad.extend_from_slice(&PARALLEL_MAGIC);
    bad.extend_from_slice(&10u32.to_le_bytes());
    let err = decompress_blocks(&bad).unwrap_err();
    assert_eq!(err, BmrcError::Truncated);
}

#[test]
fn split_into_chunks() {
    let blocks = split_blocks(b"abcdefg", Some(3));
    assert_eq!(blocks, vec![b"abc".to_vec(), b"def".to_vec(), b"g".to_vec()]);
    assert_eq!(split_blocks(b"", Some(3)), vec![Vec::<u8>::new()]);
    assert_eq!(split_blocks(b"ab", Some(0)), vec![b"a".to_vec(), b"b".to_vec()]);
}

#[test]
fn envelope_layout() {
    let env = assemble_parallel(&vec![b"xy".to_vec(), b"z".to_vec()]);
    assert_eq!(env, b"BMRP\x02\x00\x00\x00\x02\x00\x00\x00\x01\x00\x00\x00xyz".to_vec());
    assert_eq!(parse_parallel(&env).unwrap(), vec![b"xy".to_vec(), b"z".to_vec()]);
}

#[test]
fn truncated_block_rejected() {
    let env = b"BMRP\x01\x00\x00\x00\x05\x00\x00\x00abc";
    assert_eq!(parse_parallel(env).unwrap_err(), BmrcError::Truncated);
}

#[test]
fn join_reports_first_error() {
    let r = join_blocks(vec![Ok(b"a".to_vec()), Err(BmrcError::BadMagic), Err(BmrcError::Truncated)]);
    assert_eq!(r.unwrap_err(), BmrcError::BadMagic);
    assert_eq!(join_blocks(vec![Ok(b"a".to_vec()), Ok(b"bc".to_vec())]).unwrap(), b"abc".to_vec());
}

#[test]
fn block_size_normalisation_and_count() {
    let data = b"0123456789".repeat(100);
    assert_eq!(split_blocks(&data, None), split_blocks(&data, Some(DEFAULT_BLOCK_SIZE)));
    assert_eq!(split_blocks(&data, Some(0)), split_blocks(&data, Some(1)));
    for bs in [1usize, 3, 7, 10, 999, 1000, 1001] {
        let blocks = split_blocks(&data, Some(bs));
        assert_eq!(blocks.len(), (data.len() + bs - 1) / bs);
        let env = compress_blocks(&data, 4, Some(bs));
        assert_eq!(u32::from_le_bytes([env[4], env[5], env[6], env[7]]) as usize, blocks.len());
    }
    assert_eq!(split_blocks(b"", Some(5)).len(), 1);
}
