//! Block-parallel container (`.bmrp`).
//!
//! Parallel compression splits the input into fixed-size blocks, compresses
//! each block on its own (each is a complete `.bmrc` stream), and wraps the
//! results in a `.bmrp` envelope:
//!
//! ```text
//! Offset    Size      Field
//! 0         4         Magic "BMRP"
//! 4         4         Block count N (u32 LE)
//! 8         4 * N     Block payload sizes in bytes (u32 LE each)
//! 8 + 4*N   ...       Block payloads, each a complete .bmrc stream
//! ```
//!
//! This module holds the splitting, the envelope and its parsing; the
//! per-block work is independent and can run on any number of threads.

use vstd::prelude::*;
use vstd::bytes::{spec_u32_from_le_bytes, spec_u32_to_le_bytes, u32_from_le_bytes, u32_to_le_bytes};
use vstd::slice::{slice_subrange, slice_to_vec};
use crate::error::BmrcError;
use crate::{lemma_compress_roundtrip, spec_compress, spec_decompress};

verus! {

/// Magic bytes of the parallel container format, `"BMRP"`.
pub const PARALLEL_MAGIC: [u8; 4] = [0x42, 0x4D, 0x52, 0x50];

/// Default block size for parallel compression (256 KB).
pub const DEFAULT_BLOCK_SIZE: usize = 262144;

/// The parallel magic bytes as a sequence.
pub open spec fn parallel_magic_seq() -> Seq<u8> {
    seq![0x42u8, 0x4Du8, 0x52u8, 0x50u8]
}

/// The block size used for `block_size`: the default when absent, and at
/// least 1.
pub open spec fn effective_block_size(block_size: Option<usize>) -> nat {
    let b = match block_size {
        Some(b) => b,
        None => DEFAULT_BLOCK_SIZE,
    };
    if b < 1 {
        1
    } else {
        b as nat
    }
}

/// `data` cut into consecutive blocks of `bs` bytes (the last may be
/// shorter); empty data gives one empty block.
pub open spec fn spec_split(data: Seq<u8>, bs: nat) -> Seq<Seq<u8>>
    decreases data.len(),
{
    if data.len() <= bs || bs == 0 {
        seq![data]
    } else {
        seq![data.subrange(0, bs as int)] + spec_split(data.subrange(bs as int, data.len() as int), bs)
    }
}

/// The blocks joined back together.
pub open spec fn concat(blocks: Seq<Seq<u8>>) -> Seq<u8>
    decreases blocks.len(),
{
    if blocks.len() == 0 {
        Seq::empty()
    } else {
        concat(blocks.drop_last()) + blocks.last()
    }
}

/// The size table of the envelope: each block's length as a u32 LE.
pub open spec fn sizes_bytes(blocks: Seq<Seq<u8>>) -> Seq<u8>
    decreases blocks.len(),
{
    if blocks.len() == 0 {
        Seq::empty()
    } else {
        sizes_bytes(blocks.drop_last()) + spec_u32_to_le_bytes(blocks.last().len() as u32)
    }
}

/// The `.bmrp` envelope around the compressed blocks.
pub open spec fn spec_assemble(blocks: Seq<Seq<u8>>) -> Seq<u8> {
    parallel_magic_seq() + spec_u32_to_le_bytes(blocks.len() as u32) + sizes_bytes(blocks) + concat(
        blocks,
    )
}

/// The size of block `i` recorded in the envelope `data`.
pub open spec fn recorded_size(data: Seq<u8>, i: int) -> nat {
    spec_u32_from_le_bytes(data.subrange(8 + 4 * i, 12 + 4 * i)) as nat
}

/// The first `k` of `n` blocks of the envelope `data`, with the offset
/// after them, or `Truncated` when one runs past the end.
pub open spec fn parse_blocks(data: Seq<u8>, n: nat, k: nat) -> Result<(Seq<Seq<u8>>, nat), BmrcError>
    decreases k,
{
    if k == 0 {
        Ok((Seq::empty(), 8 + 4 * n))
    } else {
        match parse_blocks(data, n, (k - 1) as nat) {
            Err(e) => Err(e),
            Ok((bs, off)) => {
                let end = off + recorded_size(data, k - 1);
                if end > data.len() {
                    Err(BmrcError::Truncated)
                } else {
                    Ok((bs.push(data.subrange(off as int, end as int)), end))
                }
            },
        }
    }
}

/// Once parsing the blocks fails, parsing more blocks fails the same way.
proof fn lemma_parse_blocks_err(data: Seq<u8>, n: nat, k: nat, m: nat)
    requires
        k <= m,
        parse_blocks(data, n, k) is Err,
    ensures
        parse_blocks(data, n, m) == parse_blocks(data, n, k),
    decreases m - k,
{
    if k < m {
        lemma_parse_blocks_err(data, n, k, (m - 1) as nat);
    }
}

/// The blocks of a `.bmrp` envelope, or the error that reading it gives.
pub open spec fn spec_parse(data: Seq<u8>) -> Result<Seq<Seq<u8>>, BmrcError> {
    if data.len() < 8 {
        Err(BmrcError::HeaderTooShort)
    } else if data.subrange(0, 4) != parallel_magic_seq() {
        Err(BmrcError::BadMagic)
    } else {
        let n = spec_u32_from_le_bytes(data.subrange(4, 8)) as nat;
        if data.len() < 8 + 4 * n {
            Err(BmrcError::Truncated)
        } else {
            match parse_blocks(data, n, n) {
                Err(e) => Err(e),
                Ok((bs, _)) => Ok(bs),
            }
        }
    }
}

/// The joined outputs, or the first error among them.
pub open spec fn spec_join(results: Seq<Result<Seq<u8>, BmrcError>>) -> Result<Seq<u8>, BmrcError>
    decreases results.len(),
{
    if results.len() == 0 {
        Ok(Seq::empty())
    } else {
        match results[0] {
            Err(e) => Err(e),
            Ok(v) => match spec_join(results.drop_first()) {
                Err(e) => Err(e),
                Ok(rest) => Ok(v + rest),
            },
        }
    }
}

/// Splits `data` into the blocks that parallel compression compresses
/// independently: blocks of `block_size` bytes ([`DEFAULT_BLOCK_SIZE`] when
/// `None`, at least 1), the last one possibly shorter. Empty input gives a
/// single empty block, so that it round-trips.
pub fn split_blocks(data: &[u8], block_size: Option<usize>) -> (r: Vec<Vec<u8>>)
    ensures
        block_views(r@) == spec_split(data@, effective_block_size(block_size)),
{
    let bs: usize = match block_size {
        Some(b) => b,
        None => DEFAULT_BLOCK_SIZE,
    };
    let bs: usize = if bs < 1 { 1 } else { bs };
    let ghost b = effective_block_size(block_size);
    let n = data.len();
    let mut blocks: Vec<Vec<u8>> = Vec::new();
    let mut start: usize = 0;
    assert(data@.subrange(0, n as int) =~= data@);
    assert(block_views(blocks@) + spec_split(data@, b) =~= spec_split(data@, b));
    while n - start > bs
        invariant
            bs == b,
            bs >= 1,
            n == data@.len(),
            start <= n,
            n == 0 ==> start == 0,
            n > 0 ==> start < n,
            block_views(blocks@) + spec_split(data@.subrange(start as int, n as int), b) == spec_split(
                data@,
                b,
            ),
        decreases n - start,
    {
        let chunk = slice_to_vec(slice_subrange(data, start, start + bs));
        let ghost rest = data@.subrange(start as int, n as int);
        assert(rest.subrange(0, bs as int) =~= chunk@);
        assert(rest.subrange(bs as int, rest.len() as int) =~= data@.subrange(start + bs, n as int));
        let ghost old_blocks = block_views(blocks@);
        blocks.push(chunk);
        assert(block_views(blocks@) =~= old_blocks.push(chunk@));
        assert(block_views(blocks@) + spec_split(data@.subrange(start + bs, n as int), b) =~= old_blocks
            + spec_split(rest, b));
        start = start + bs;
    }
    let last = slice_to_vec(slice_subrange(data, start, n));
    let ghost old_blocks = block_views(blocks@);
    blocks.push(last);
    assert(block_views(blocks@) =~= old_blocks.push(last@));
    assert(block_views(blocks@) =~= old_blocks + spec_split(data@.subrange(start as int, n as int), b));
    blocks
}

/// Wraps compressed blocks in a `.bmrp` envelope. Block count and sizes
/// are stored as u32, so they are taken modulo 2^32.
pub fn assemble_parallel(blocks: &Vec<Vec<u8>>) -> (r: Vec<u8>)
    ensures
        r@ == spec_assemble(block_views(blocks@)),
{
    let ghost bv = block_views(blocks@);
    let mut out: Vec<u8> = Vec::new();
    out.push(PARALLEL_MAGIC[0]);
    out.push(PARALLEL_MAGIC[1]);
    out.push(PARALLEL_MAGIC[2]);
    out.push(PARALLEL_MAGIC[3]);
    let count = u32_to_le_bytes(blocks.len() as u32);
    append(&mut out, count.as_slice());
    let ghost head = out@;
    assert(head =~= parallel_magic_seq() + spec_u32_to_le_bytes(bv.len() as u32));
    let mut i: usize = 0;
    while i < blocks.len()
        invariant
            bv == block_views(blocks@),
            0 <= i <= bv.len(),
            out@ == head + sizes_bytes(bv.subrange(0, i as int)),
        decreases bv.len() - i,
    {
        let size = u32_to_le_bytes(blocks[i].len() as u32);
        append(&mut out, size.as_slice());
        assert(bv.subrange(0, i + 1).drop_last() =~= bv.subrange(0, i as int));
        assert(bv[i as int] == blocks@[i as int]@);
        i += 1;
    }
    assert(bv.subrange(0, bv.len() as int) =~= bv);
    let ghost sized = out@;
    let mut i: usize = 0;
    while i < blocks.len()
        invariant
            bv == block_views(blocks@),
            0 <= i <= bv.len(),
            out@ == sized + concat(bv.subrange(0, i as int)),
        decreases bv.len() - i,
    {
        append(&mut out, blocks[i].as_slice());
        assert(bv.subrange(0, i + 1).drop_last() =~= bv.subrange(0, i as int));
        assert(bv[i as int] == blocks@[i as int]@);
        i += 1;
    }
    out
}

/// Appends `src` to `out`.
fn append(out: &mut Vec<u8>, src: &[u8])
    ensures
        final(out)@ == old(out)@ + src@,
{
    let mut i: usize = 0;
    let ghost start = old(out)@;
    while i < src.len()
        invariant
            0 <= i <= src@.len(),
            out@ == start + src@.subrange(0, i as int),
        decreases src@.len() - i,
    {
        out.push(src[i]);
        assert(src@.subrange(0, i + 1) =~= src@.subrange(0, i as int).push(src@[i as int]));
        i += 1;
    }
    assert(src@.subrange(0, src@.len() as int) =~= src@);
}

/// Reads a `.bmrp` envelope and returns its blocks.
///
/// Fails with `HeaderTooShort` when `data` is shorter than 8 bytes, with
/// `BadMagic` when it does not start with [`PARALLEL_MAGIC`], and with
/// `Truncated` when the size table or a block runs past the end.
pub fn parse_parallel(data: &[u8]) -> (r: Result<Vec<Vec<u8>>, BmrcError>)
    ensures
        match r {
            Ok(bs) => spec_parse(data@) == Ok::<Seq<Seq<u8>>, BmrcError>(block_views(bs@)),
            Err(e) => spec_parse(data@) == Err::<Seq<Seq<u8>>, BmrcError>(e),
        },
{
    if data.len() < 8 {
        return Err(BmrcError::HeaderTooShort);
    }
    if data[0] != PARALLEL_MAGIC[0] || data[1] != PARALLEL_MAGIC[1] || data[2] != PARALLEL_MAGIC[2]
        || data[3] != PARALLEL_MAGIC[3] {
        proof {
            if data@.subrange(0, 4) == parallel_magic_seq() {
                assert(data@.subrange(0, 4)[0] == data@[0]);
                assert(data@.subrange(0, 4)[1] == data@[1]);
                assert(data@.subrange(0, 4)[2] == data@[2]);
                assert(data@.subrange(0, 4)[3] == data@[3]);
            }
        }
        return Err(BmrcError::BadMagic);
    }
    assert(data@.subrange(0, 4) =~= parallel_magic_seq());
    let n32 = u32_from_le_bytes(slice_subrange(data, 4, 8));
    let n = n32 as usize;
    let len = data.len();
    if (len - 8) / 4 < n {
        return Err(BmrcError::Truncated);
    }
    let sizes_end = 8 + 4 * n;
    let mut block_sizes: Vec<usize> = Vec::new();
    let mut i: usize = 0;
    while i < n
        invariant
            len == data@.len(),
            sizes_end == 8 + 4 * n <= len,
            0 <= i <= n,
            block_sizes@.len() == i,
            forall|j: int| 0 <= j < i ==> #[trigger] block_sizes@[j] == recorded_size(data@, j),
        decreases n - i,
    {
        let off = 8 + i * 4;
        let size = u32_from_le_bytes(slice_subrange(data, off, off + 4)) as usize;
        block_sizes.push(size);
        i += 1;
    }
    let mut offset: usize = sizes_end;
    let mut blocks: Vec<Vec<u8>> = Vec::new();
    assert(block_views(blocks@) =~= Seq::<Seq<u8>>::empty());
    let mut k: usize = 0;
    while k < n
        invariant
            len == data@.len(),
            sizes_end == 8 + 4 * n <= len,
            block_sizes@.len() == n,
            forall|j: int| 0 <= j < n ==> #[trigger] block_sizes@[j] == recorded_size(data@, j),
            data@.subrange(0, 4) == parallel_magic_seq(),
            n32 == spec_u32_from_le_bytes(data@.subrange(4, 8)),
            n == n32 as usize,
            0 <= k <= n,
            parse_blocks(data@, n as nat, k as nat) == Ok::<(Seq<Seq<u8>>, nat), BmrcError>(
                (block_views(blocks@), offset as nat),
            ),
        decreases n - k,
    {
        let size = block_sizes[k];
        let end = match offset.checked_add(size) {
            Some(e) => e,
            None => {
                proof {
                    lemma_parse_blocks_err(data@, n as nat, (k + 1) as nat, n as nat);
                }
                return Err(BmrcError::Truncated);
            },
        };
        if end > len {
            proof {
                lemma_parse_blocks_err(data@, n as nat, (k + 1) as nat, n as nat);
            }
            return Err(BmrcError::Truncated);
        }
        let block = slice_to_vec(slice_subrange(data, offset, end));
        let ghost old_blocks = block_views(blocks@);
        blocks.push(block);
        assert(block_views(blocks@) =~= old_blocks.push(block@));
        offset = end;
        k += 1;
    }
    Ok(blocks)
}

/// Joins the outputs of the blocks in order, or returns the first error.
pub fn join_blocks(results: Vec<Result<Vec<u8>, BmrcError>>) -> (r: Result<Vec<u8>, BmrcError>)
    ensures
        match r {
            Ok(v) => spec_join(result_views(results@)) == Ok::<Seq<u8>, BmrcError>(v@),
            Err(e) => spec_join(result_views(results@)) == Err::<Seq<u8>, BmrcError>(e),
        },
{
    let ghost rv = result_views(results@);
    let mut out: Vec<u8> = Vec::new();
    let mut i: usize = 0;
    assert(rv.subrange(0, rv.len() as int) =~= rv);
    assert(spec_join(rv) == match spec_join(rv.subrange(0, rv.len() as int)) {
        Err(e) => Err::<Seq<u8>, BmrcError>(e),
        Ok(rest) => Ok::<Seq<u8>, BmrcError>(out@ + rest),
    }) by {
        match spec_join(rv) {
            Ok(rest) => { assert(out@ + rest =~= rest); },
            Err(_) => {},
        }
    }
    while i < results.len()
        invariant
            rv == result_views(results@),
            0 <= i <= rv.len(),
            spec_join(rv) == match spec_join(rv.subrange(i as int, rv.len() as int)) {
                Err(e) => Err::<Seq<u8>, BmrcError>(e),
                Ok(rest) => Ok::<Seq<u8>, BmrcError>(out@ + rest),
            },
        decreases rv.len() - i,
    {
        let ghost tail = rv.subrange(i as int, rv.len() as int);
        assert(tail.drop_first() =~= rv.subrange(i + 1, rv.len() as int));
        assert(tail[0] == rv[i as int]);
        match &results[i] {
            Ok(v) => {
                let ghost old_out = out@;
                append(&mut out, v.as_slice());
                proof {
                    match spec_join(tail.drop_first()) {
                        Ok(rest) => {
                            assert(old_out + (v@ + rest) =~= out@ + rest);
                        },
                        Err(_) => {},
                    }
                }
            },
            Err(e) => {
                return Err(*e);
            },
        }
        i += 1;
    }
    assert(rv.subrange(rv.len() as int, rv.len() as int) =~= Seq::<Result<Seq<u8>, BmrcError>>::empty());
    Ok(out)
}

/// The contents of a sequence of blocks.
pub open spec fn block_views(v: Seq<Vec<u8>>) -> Seq<Seq<u8>> {
    Seq::new(v.len(), |i: int| v[i]@)
}

/// The views of a sequence of results.
pub open spec fn result_views(rs: Seq<Result<Vec<u8>, BmrcError>>) -> Seq<Result<Seq<u8>, BmrcError>> {
    Seq::new(
        rs.len(),
        |i: int|
            match rs[i] {
                Ok(v) => Ok(v@),
                Err(e) => Err(e),
            },
    )
}

// ---------------------------------------------------------------------------
// Laws of the container.
// ---------------------------------------------------------------------------

/// The blocks that parallel compression writes for `data`: each block of
/// the split compressed on its own.
pub open spec fn spec_compress_blocks(data: Seq<u8>, level: u8, block_size: Option<usize>) -> Seq<Seq<u8>> {
    spec_split(data, effective_block_size(block_size)).map_values(|b: Seq<u8>| spec_compress(b, level))
}

/// Each block decompressed on its own.
pub open spec fn spec_decompress_blocks(blocks: Seq<Seq<u8>>) -> Seq<Result<Seq<u8>, BmrcError>> {
    blocks.map_values(|c: Seq<u8>| spec_decompress(c))
}

proof fn lemma_concat_add(a: Seq<Seq<u8>>, b: Seq<Seq<u8>>)
    ensures
        concat(a + b) == concat(a) + concat(b),
    decreases b.len(),
{
    if b.len() == 0 {
        assert(a + b =~= a);
        assert(concat(a) + concat(b) =~= concat(a));
    } else {
        lemma_concat_add(a, b.drop_last());
        assert((a + b).drop_last() =~= a + b.drop_last());
        assert((a + b).last() == b.last());
        assert(concat(a) + concat(b.drop_last()) + b.last() =~= concat(a) + (concat(b.drop_last())
            + b.last()));
    }
}

proof fn lemma_concat_single(x: Seq<u8>)
    ensures
        concat(seq![x]) == x,
{
    assert(seq![x].drop_last() =~= Seq::<Seq<u8>>::empty());
    assert(concat(Seq::<Seq<u8>>::empty()) == Seq::<u8>::empty());
    assert(seq![x].last() == x);
    assert(Seq::<u8>::empty() + x =~= x);
}

proof fn lemma_concat_first(blocks: Seq<Seq<u8>>)
    requires
        blocks.len() > 0,
    ensures
        concat(blocks) == blocks[0] + concat(blocks.drop_first()),
{
    lemma_concat_add(seq![blocks[0]], blocks.drop_first());
    lemma_concat_single(blocks[0]);
    assert(seq![blocks[0]] + blocks.drop_first() =~= blocks);
}

/// Joining the blocks of a split gives back the data. Every block but the
/// last holds exactly `bs` bytes, the last at most `bs` and, for data that
/// is not empty, at least one; there is at most one block more than bytes.
pub proof fn lemma_split_concat(data: Seq<u8>, bs: nat)
    requires
        bs >= 1,
    ensures
        concat(spec_split(data, bs)) == data,
        spec_split(data, bs).len() >= 1,
        spec_split(data, bs).len() <= data.len() + 1,
        forall|i: int|
            0 <= i < spec_split(data, bs).len() - 1 ==> #[trigger] spec_split(data, bs)[i].len() == bs,
        spec_split(data, bs).last().len() <= bs,
        data.len() > 0 ==> spec_split(data, bs).last().len() > 0,
        forall|i: int|
            0 <= i < spec_split(data, bs).len() ==> #[trigger] spec_split(data, bs)[i].len() <= data.len(),
    decreases data.len(),
{
    let s = spec_split(data, bs);
    if data.len() <= bs {
        lemma_concat_single(data);
    } else {
        let first = data.subrange(0, bs as int);
        let rest = data.subrange(bs as int, data.len() as int);
        let t = spec_split(rest, bs);
        lemma_split_concat(rest, bs);
        lemma_concat_add(seq![first], t);
        lemma_concat_single(first);
        assert(first + rest =~= data);
        assert(s == seq![first] + t);
        assert forall|i: int| 0 <= i < s.len() implies #[trigger] s[i].len() <= data.len() && (i
            < s.len() - 1 ==> s[i].len() == bs) by {
            if i > 0 {
                assert(s[i] == t[i - 1]);
            }
        }
        assert(s.last() == t.last());
    }
}

proof fn lemma_sizes_len(blocks: Seq<Seq<u8>>)
    ensures
        sizes_bytes(blocks).len() == 4 * blocks.len(),
    decreases blocks.len(),
{
    vstd::bytes::lemma_auto_spec_u32_to_from_le_bytes();
    if blocks.len() > 0 {
        lemma_sizes_len(blocks.drop_last());
    }
}

proof fn lemma_sizes_entry(blocks: Seq<Seq<u8>>, j: int)
    requires
        0 <= j < blocks.len(),
    ensures
        sizes_bytes(blocks).subrange(4 * j, 4 * j + 4) == spec_u32_to_le_bytes(blocks[j].len() as u32),
    decreases blocks.len(),
{
    vstd::bytes::lemma_auto_spec_u32_to_from_le_bytes();
    let front = blocks.drop_last();
    lemma_sizes_len(front);
    let tail = spec_u32_to_le_bytes(blocks.last().len() as u32);
    assert(sizes_bytes(blocks) == sizes_bytes(front) + tail);
    if j < front.len() {
        lemma_sizes_entry(front, j);
        assert((sizes_bytes(front) + tail).subrange(4 * j, 4 * j + 4) =~= sizes_bytes(front).subrange(
            4 * j,
            4 * j + 4,
        ));
    } else {
        assert((sizes_bytes(front) + tail).subrange(4 * j, 4 * j + 4) =~= tail);
    }
}

/// Reading the first `k` blocks of an envelope gives the first `k` blocks
/// that were wrapped.
proof fn lemma_parse_assembled(blocks: Seq<Seq<u8>>, k: nat)
    requires
        k <= blocks.len(),
        forall|i: int| 0 <= i < blocks.len() ==> #[trigger] blocks[i].len() <= u32::MAX,
    ensures
        parse_blocks(spec_assemble(blocks), blocks.len(), k) == Ok::<(Seq<Seq<u8>>, nat), BmrcError>(
            (blocks.subrange(0, k as int), 8 + 4 * blocks.len() + concat(blocks.subrange(0, k as int)).len()),
        ),
    decreases k,
{
    let n = blocks.len();
    let data = spec_assemble(blocks);
    if k == 0 {
        assert(blocks.subrange(0, 0) =~= Seq::<Seq<u8>>::empty());
    } else {
        lemma_parse_assembled(blocks, (k - 1) as nat);
        vstd::bytes::lemma_auto_spec_u32_to_from_le_bytes();
        let j = k - 1;
        let head = parallel_magic_seq() + spec_u32_to_le_bytes(n as u32);
        let sizes = sizes_bytes(blocks);
        lemma_sizes_len(blocks);
        lemma_sizes_entry(blocks, j);
        assert(data == head + sizes + concat(blocks));
        assert(data.subrange(8 + 4 * j, 12 + 4 * j) =~= sizes.subrange(4 * j, 4 * j + 4));
        assert(recorded_size(data, j) == blocks[j].len());
        let before = blocks.subrange(0, j);
        let upto = blocks.subrange(0, k as int);
        let after = blocks.subrange(k as int, n as int);
        assert(upto.drop_last() =~= before);
        assert(concat(upto) == concat(before) + blocks[j]);
        lemma_concat_add(upto, after);
        assert(upto + after =~= blocks);
        let off = (8 + 4 * n + concat(before).len()) as int;
        assert(data =~= (head + sizes + concat(before)) + blocks[j] + concat(after));
        assert(data.subrange(off, off + blocks[j].len() as int) =~= blocks[j]);
        assert(before.push(blocks[j]) =~= upto);
    }
}

/// Reading an envelope gives back the blocks that were wrapped, when their
/// count and each of their lengths fit in a u32.
pub proof fn lemma_parse_assemble(blocks: Seq<Seq<u8>>)
    requires
        blocks.len() <= u32::MAX,
        forall|i: int| 0 <= i < blocks.len() ==> #[trigger] blocks[i].len() <= u32::MAX,
    ensures
        spec_parse(spec_assemble(blocks)) == Ok::<Seq<Seq<u8>>, BmrcError>(blocks),
{
    vstd::bytes::lemma_auto_spec_u32_to_from_le_bytes();
    let n = blocks.len();
    let data = spec_assemble(blocks);
    let head = parallel_magic_seq() + spec_u32_to_le_bytes(n as u32);
    lemma_sizes_len(blocks);
    assert(data == head + sizes_bytes(blocks) + concat(blocks));
    assert(data.subrange(0, 4) =~= parallel_magic_seq());
    assert(data.subrange(4, 8) =~= spec_u32_to_le_bytes(n as u32));
    lemma_parse_assembled(blocks, n);
    assert(blocks.subrange(0, n as int) =~= blocks);
}

/// Joining outputs that all succeeded gives their concatenation.
pub proof fn lemma_join_ok(results: Seq<Result<Seq<u8>, BmrcError>>, blocks: Seq<Seq<u8>>)
    requires
        results.len() == blocks.len(),
        forall|i: int| 0 <= i < blocks.len() ==> #[trigger] results[i] == Ok::<Seq<u8>, BmrcError>(blocks[i]),
    ensures
        spec_join(results) == Ok::<Seq<u8>, BmrcError>(concat(blocks)),
    decreases blocks.len(),
{
    if blocks.len() == 0 {
        assert(concat(blocks) =~= Seq::<u8>::empty());
    } else {
        assert(results[0] == Ok::<Seq<u8>, BmrcError>(blocks[0]));
        assert forall|i: int| 0 <= i < blocks.drop_first().len() implies #[trigger] results.drop_first()[i]
            == Ok::<Seq<u8>, BmrcError>(blocks.drop_first()[i]) by {
            assert(results[i + 1] == Ok::<Seq<u8>, BmrcError>(blocks[i + 1]));
        }
        lemma_join_ok(results.drop_first(), blocks.drop_first());
        lemma_concat_first(blocks);
    }
}

/// Parallel compression round-trips: the envelope gives back the
/// compressed blocks, each of them decompresses, and joining what they
/// decompress to gives back the data, at every level and block size. This
/// holds whenever the envelope's u32 fields can hold the number of blocks
/// and the length of every compressed block.
pub proof fn lemma_parallel_roundtrip(data: Seq<u8>, level: u8, block_size: Option<usize>)
    requires
        data.len() <= isize::MAX,
        spec_split(data, effective_block_size(block_size)).len() <= u32::MAX,
        forall|i: int|
            0 <= i < spec_compress_blocks(data, level, block_size).len() ==> #[trigger] spec_compress_blocks(
                data,
                level,
                block_size,
            )[i].len() <= u32::MAX,
    ensures
        spec_parse(spec_assemble(spec_compress_blocks(data, level, block_size))) == Ok::<
            Seq<Seq<u8>>,
            BmrcError,
        >(spec_compress_blocks(data, level, block_size)),
        spec_join(spec_decompress_blocks(spec_compress_blocks(data, level, block_size)))
            == Ok::<Seq<u8>, BmrcError>(data),
{
    let bs = effective_block_size(block_size);
    let blocks = spec_split(data, bs);
    let cs = spec_compress_blocks(data, level, block_size);
    let ds = spec_decompress_blocks(cs);
    lemma_split_concat(data, bs);
    lemma_parse_assemble(cs);
    assert forall|i: int| 0 <= i < cs.len() implies #[trigger] ds[i] == Ok::<Seq<u8>, BmrcError>(
        blocks[i],
    ) by {
        assert(blocks[i].len() <= data.len());
        lemma_compress_roundtrip(blocks[i], level);
    }
    lemma_join_ok(ds, blocks);
}

/// No block size means [`DEFAULT_BLOCK_SIZE`], and a block size of zero
/// means one.
pub proof fn lemma_block_size_normalised()
    ensures
        effective_block_size(None) == effective_block_size(Some(DEFAULT_BLOCK_SIZE)),
        effective_block_size(Some(0)) == effective_block_size(Some(1)),
        effective_block_size(None) == DEFAULT_BLOCK_SIZE,
{
}

/// The number of blocks `len` bytes are cut into at block size `bs`: one
/// for no bytes, else `len / bs` rounded up.
pub open spec fn block_count(len: nat, bs: nat) -> nat {
    if len == 0 {
        1
    } else {
        ((len + bs - 1) / bs as int) as nat
    }
}

/// A split has [`block_count`] blocks.
pub proof fn lemma_split_count(data: Seq<u8>, bs: nat)
    requires
        bs >= 1,
    ensures
        spec_split(data, bs).len() == block_count(data.len(), bs),
    decreases data.len(),
{
    let n = data.len();
    if n <= bs {
        if n > 0 {
            vstd::arithmetic::div_mod::lemma_fundamental_div_mod_converse(
                (n + bs - 1) as int,
                bs as int,
                1,
                (n - 1) as int,
            );
        }
    } else {
        let rest = data.subrange(bs as int, n as int);
        lemma_split_count(rest, bs);
        let x = (rest.len() + bs - 1) as int;
        vstd::arithmetic::div_mod::lemma_div_plus_one(x, bs as int);
        assert(bs + x == n + bs - 1);
    }
}

/// The block count field of an envelope holds the number of blocks, when
/// it fits in a u32.
pub proof fn lemma_envelope_count(blocks: Seq<Seq<u8>>)
    requires
        blocks.len() <= u32::MAX,
    ensures
        spec_u32_from_le_bytes(spec_assemble(blocks).subrange(4, 8)) == blocks.len(),
{
    vstd::bytes::lemma_auto_spec_u32_to_from_le_bytes();
    let head = parallel_magic_seq() + spec_u32_to_le_bytes(blocks.len() as u32);
    assert(spec_assemble(blocks) == head + sizes_bytes(blocks) + concat(blocks));
    assert(spec_assemble(blocks).subrange(4, 8) =~= spec_u32_to_le_bytes(blocks.len() as u32));
}

/// Parallel compression writes one block per [`block_count`] in its count
/// field, when that count fits in a u32.
pub proof fn lemma_parallel_block_count(data: Seq<u8>, level: u8, block_size: Option<usize>)
    requires
        block_count(data.len(), effective_block_size(block_size)) <= u32::MAX,
    ensures
        spec_compress_blocks(data, level, block_size).len() == block_count(
            data.len(),
            effective_block_size(block_size),
        ),
        spec_u32_from_le_bytes(spec_assemble(spec_compress_blocks(data, level, block_size)).subrange(4, 8))
            == block_count(data.len(), effective_block_size(block_size)),
{
    lemma_split_count(data, effective_block_size(block_size));
    lemma_envelope_count(spec_compress_blocks(data, level, block_size));
}

/// A block size `b` of at least one is used as given: every block of the
/// split but the last holds exactly `b` bytes, and data that is not empty
/// is cut into `len / b` blocks rounded up, the count the envelope records.
pub proof fn lemma_block_size_as_given(data: Seq<u8>, level: u8, b: usize)
    requires
        b >= 1,
        (data.len() + b - 1) / (b as int) <= u32::MAX,
    ensures
        effective_block_size(Some(b)) == b,
        forall|i: int|
            0 <= i < spec_split(data, effective_block_size(Some(b))).len() - 1
                ==> #[trigger] spec_split(data, effective_block_size(Some(b)))[i].len() == b,
        data.len() > 0 ==> spec_split(data, effective_block_size(Some(b))).len() == (data.len() + b - 1)
            / (b as int),
        data.len() > 0 ==> spec_u32_from_le_bytes(
            spec_assemble(spec_compress_blocks(data, level, Some(b))).subrange(4, 8),
        ) == (data.len() + b - 1) / (b as int),
{
    lemma_split_concat(data, b as nat);
    lemma_split_count(data, b as nat);
    if data.len() > 0 {
        lemma_parallel_block_count(data, level, Some(b));
    }
}

} // verus!
