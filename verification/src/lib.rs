//! BMRC: a lossless compressor built around adaptive context mixing.
//!
//! Several order-N statistical models and a long-range match model feed an
//! adaptive mixer, optionally refined by SSE stages; the resulting bit
//! probabilities drive a binary range coder. [`compress`] turns bytes into
//! a `.bmrc` stream and [`decompress`] restores them. Ten compression
//! levels trade speed for ratio. [`compress_bwt`] adds a Burrows-Wheeler
//! pre-pass, which [`decompress`] detects and reverses.
//!
//! ## Compatibility of coded streams
//!
//! The coded payload of a stream is only meaningful to a decoder that runs
//! exactly the model that coded it. This library's model is fixed-point
//! integer arithmetic throughout (12-bit probabilities, 16.16 mixer
//! weights, table-driven squash and stretch). Nothing in the header names
//! the model: a coded `BMR1` stream written by any other model, such as a
//! floating-point one with the same levels, is not recognised as foreign.
//! [`decompress`] returns `Ok` for it with bytes other than the ones that
//! were compressed. Only stored streams (flag [`FLAG_STORED`]) carry their
//! data verbatim and are readable whatever model wrote them. Exchange coded
//! streams only between programs built on this library.

pub mod error;
pub mod format;
pub mod range_coder;
pub mod levels;
pub mod predictor;
pub mod payload;
pub mod bwt;
pub mod bwt_lf;
pub mod parallel;

pub use error::BmrcError;
pub use format::{Header, FLAG_BWT, FLAG_STORED, HEADER_LEN, MAGIC};
pub use levels::{config_for_level, estimated_memory_bytes, LevelConfig};
pub use parallel::{DEFAULT_BLOCK_SIZE, PARALLEL_MAGIC};

use vstd::prelude::*;
use vstd::bytes::{spec_u32_from_le_bytes, spec_u32_to_le_bytes, u32_from_le_bytes, u32_to_le_bytes, spec_u64_from_le_bytes};
use vstd::slice::{slice_subrange, slice_to_vec};
use crate::format::{header_bytes, magic_seq, spec_read_header, lemma_header_roundtrip};
use crate::levels::clamp_level;
use crate::payload::{encode_payload, decode_payload, spec_encode_payload, spec_decode_payload, lemma_payload_roundtrip};
use crate::bwt::{bwt_encode, bwt_decode, spec_bwt, spec_bwt_decode, primary_index, lemma_primary_index};
use crate::bwt_lf::lemma_bwt_roundtrip;

verus! {

/// The fastest, weakest level.
pub const MIN_LEVEL: u8 = 1;

/// The slowest, strongest level.
pub const MAX_LEVEL: u8 = 10;

/// The `.bmrc` stream [`compress`] produces: the header and the coded
/// payload, or, when coding does not make the data smaller, the header and
/// the data stored as-is.
pub open spec fn spec_compress(data: Seq<u8>, level: u8) -> Seq<u8> {
    let l = clamp_level(level);
    let payload = spec_encode_payload(data, l);
    if payload.len() >= data.len() {
        header_bytes(Header { level: l, flags: FLAG_STORED, original_len: data.len() as u64 }) + data
    } else {
        header_bytes(Header { level: l, flags: 0, original_len: data.len() as u64 }) + payload
    }
}

/// The `.bmrc` stream [`compress_bwt`] produces with primary index `idx`:
/// the BWT of the data coded behind a header with [`FLAG_BWT`] and the
/// index, or plain [`compress`] output when that is not smaller.
pub open spec fn spec_compress_bwt(data: Seq<u8>, level: u8, idx: u32) -> Seq<u8> {
    let l = clamp_level(level);
    let payload = spec_encode_payload(spec_bwt(data), l);
    if data.len() == 0 || payload.len() + 4 >= data.len() {
        spec_compress(data, l)
    } else {
        header_bytes(Header { level: l, flags: FLAG_BWT, original_len: data.len() as u64 })
            + spec_u32_to_le_bytes(idx) + payload
    }
}

/// What [`decompress`] gives for `data`.
pub open spec fn spec_decompress(data: Seq<u8>) -> Result<Seq<u8>, BmrcError> {
    match spec_read_header(data) {
        Err(e) => Err(e),
        Ok((h, payload)) => {
            let n = (h.original_len as usize) as nat;
            if h.flags & FLAG_STORED != 0 {
                if payload.len() < n {
                    Err(BmrcError::Truncated)
                } else {
                    Ok(payload.subrange(0, n as int))
                }
            } else if h.flags & FLAG_BWT != 0 {
                if payload.len() < 4 || n > isize::MAX {
                    Err(BmrcError::Truncated)
                } else {
                    let idx = spec_u32_from_le_bytes(payload.subrange(0, 4));
                    if n > 0 && idx >= n {
                        Err(BmrcError::Truncated)
                    } else {
                        Ok(
                            spec_bwt_decode(
                                spec_decode_payload(payload.subrange(4, payload.len() as int), h.level, n),
                                idx,
                            ),
                        )
                    }
                }
            } else if n > isize::MAX {
                Err(BmrcError::Truncated)
            } else {
                Ok(spec_decode_payload(payload, h.level, n))
            }
        },
    }
}

/// `level` limited to `MIN_LEVEL..=MAX_LEVEL`.
fn clamp(level: u8) -> (l: u8)
    ensures
        l == clamp_level(level),
{
    if level < MIN_LEVEL {
        MIN_LEVEL
    } else if level > MAX_LEVEL {
        MAX_LEVEL
    } else {
        level
    }
}

/// Appends `src` to `out`.
fn append(out: &mut Vec<u8>, src: &[u8])
    ensures
        final(out)@ == old(out)@ + src@,
{
    let mut i: usize = 0;
    let ghost start = old(out)@;
    while i < src.len()
        invariant
            0 <= i <= src@.len(),
            out@ == start + src@.subrange(0, i as int),
        decreases src@.len() - i,
    {
        out.push(src[i]);
        assert(src@.subrange(0, i + 1) =~= src@.subrange(0, i as int).push(src@[i as int]));
        i += 1;
    }
    assert(src@.subrange(0, src@.len() as int) =~= src@);
}

/// Compresses `data` and returns a `.bmrc` byte stream that
/// [`decompress`] restores.
///
/// `level` is clamped to `MIN_LEVEL..=MAX_LEVEL`. When coding does not
/// make the data smaller, it is stored as-is, so the output is never more
/// than [`HEADER_LEN`] bytes longer than the input.
pub fn compress(data: &[u8], level: u8) -> (r: Vec<u8>)
    ensures
        r@ == spec_compress(data@, level),
        r@.len() <= data@.len() + HEADER_LEN,
{
    proof {
        vstd::bytes::lemma_auto_spec_u64_to_from_le_bytes();
    }
    let l = clamp(level);
    let payload = encode_payload(data, l);
    let mut out: Vec<u8> = Vec::new();
    if payload.len() >= data.len() {
        Header { level: l, flags: FLAG_STORED, original_len: data.len() as u64 }.write(&mut out);
        append(&mut out, data);
    } else {
        Header { level: l, flags: 0, original_len: data.len() as u64 }.write(&mut out);
        append(&mut out, payload.as_slice());
    }
    out
}

/// Compresses `data` with a BWT pre-pass and returns a `.bmrc` stream.
///
/// The Burrows-Wheeler Transform reorders bytes so that equal bytes
/// cluster, which helps the context models on text and structured binary
/// data. The primary index (4 bytes, little-endian) precedes the payload
/// and the header carries [`FLAG_BWT`]; [`decompress`] reverses the
/// transform. Falls back to plain [`compress`] when the pre-pass does not
/// make the output smaller.
pub fn compress_bwt(data: &[u8], level: u8) -> (r: Vec<u8>)
    requires
        data@.len() <= u32::MAX,
    ensures
        r@ == spec_compress_bwt(data@, level, primary_index(data@)),
        r@.len() <= data@.len() + HEADER_LEN,
{
    let l = clamp(level);
    if data.len() == 0 {
        return compress(data, l);
    }
    let (bwt_data, primary_idx) = bwt_encode(data);
    let payload = encode_payload(bwt_data.as_slice(), l);
    if data.len() <= 4 || payload.len() >= data.len() - 4 {
        let r = compress(data, l);
        assert(r@ == spec_compress_bwt(data@, level, primary_idx));
        return r;
    }
    let mut out: Vec<u8> = Vec::new();
    Header { level: l, flags: FLAG_BWT, original_len: data.len() as u64 }.write(&mut out);
    let idx_bytes = u32_to_le_bytes(primary_idx);
    append(&mut out, idx_bytes.as_slice());
    append(&mut out, payload.as_slice());
    assert(out@ == spec_compress_bwt(data@, level, primary_idx));
    proof {
        vstd::bytes::lemma_auto_spec_u64_to_from_le_bytes();
        vstd::bytes::lemma_auto_spec_u32_to_from_le_bytes();
        assert(header_bytes(Header { level: l, flags: FLAG_BWT, original_len: data.len() as u64 }).len()
            == HEADER_LEN);
    }
    out
}

/// Decompresses a `.bmrc` stream created by [`compress`] or
/// [`compress_bwt`].
///
/// Fails with `HeaderTooShort` or `BadMagic` when the header is invalid,
/// and with `Truncated` when stored data or the BWT index is cut short, or
/// when a coded stream cannot be decoded: it announces more than
/// `isize::MAX` bytes, or its BWT primary index lies outside the data.
/// Bytes after a complete stream are ignored.
pub fn decompress(data: &[u8]) -> (r: Result<Vec<u8>, BmrcError>)
    ensures
        match r {
            Ok(v) => spec_decompress(data@) == Ok::<Seq<u8>, BmrcError>(v@),
            Err(e) => spec_decompress(data@) == Err::<Seq<u8>, BmrcError>(e),
        },
{
    let (header, payload) = match Header::read(data) {
        Ok(hp) => hp,
        Err(e) => {
            return Err(e);
        },
    };
    let n = header.original_len as usize;
    if header.flags & FLAG_STORED != 0 {
        if payload.len() < n {
            return Err(BmrcError::Truncated);
        }
        return Ok(slice_to_vec(slice_subrange(payload, 0, n)));
    }
    if header.flags & FLAG_BWT != 0 {
        if payload.len() < 4 || n > isize::MAX as usize {
            return Err(BmrcError::Truncated);
        }
        let (idx_bytes, coded) = payload.split_at(4);
        let primary_idx = u32_from_le_bytes(idx_bytes);
        if n > 0 && primary_idx as usize >= n {
            return Err(BmrcError::Truncated);
        }
        let bwt_data = decode_payload(coded, header.level, n);
        return Ok(bwt_decode(bwt_data.as_slice(), primary_idx));
    }
    if n > isize::MAX as usize {
        return Err(BmrcError::Truncated);
    }
    Ok(decode_payload(payload, header.level, n))
}

/// Decompressing what [`compress`] produced gives back the data, at every
/// level, whatever bytes `t` follow the stream.
pub proof fn lemma_compress_roundtrip_trailing(data: Seq<u8>, level: u8, t: Seq<u8>)
    requires
        data.len() <= isize::MAX,
        data.len() + t.len() + HEADER_LEN <= usize::MAX,
    ensures
        spec_decompress(spec_compress(data, level) + t) == Ok::<Seq<u8>, BmrcError>(data),
{
    let l = clamp_level(level);
    let payload = spec_encode_payload(data, l);
    assert(clamp_level(l) == l);
    if payload.len() >= data.len() {
        let h = Header { level: l, flags: FLAG_STORED, original_len: data.len() as u64 };
        lemma_header_roundtrip(h, data + t);
        assert(header_bytes(h) + data + t =~= header_bytes(h) + (data + t));
        assert(FLAG_STORED & FLAG_STORED != 0) by (bit_vector);
        assert((data + t).subrange(0, data.len() as int) =~= data);
    } else {
        let h = Header { level: l, flags: 0, original_len: data.len() as u64 };
        lemma_header_roundtrip(h, payload + t);
        assert(header_bytes(h) + payload + t =~= header_bytes(h) + (payload + t));
        assert(0u8 & FLAG_STORED == 0) by (bit_vector);
        assert(0u8 & FLAG_BWT == 0) by (bit_vector);
        lemma_payload_roundtrip(data, l, t);
    }
}

/// Decompressing what [`compress`] produced gives back the data, at every
/// level.
pub proof fn lemma_compress_roundtrip(data: Seq<u8>, level: u8)
    requires
        data.len() <= isize::MAX,
    ensures
        spec_decompress(spec_compress(data, level)) == Ok::<Seq<u8>, BmrcError>(data),
{
    let t = Seq::<u8>::empty();
    lemma_compress_roundtrip_trailing(data, level, t);
    assert(spec_compress(data, level) + t =~= spec_compress(data, level));
}

/// Decompressing what [`compress_bwt`] produced gives back the data, at
/// every level, whatever bytes `t` follow the stream.
#[verifier::spinoff_prover]
pub proof fn lemma_compress_bwt_roundtrip_trailing(data: Seq<u8>, level: u8, t: Seq<u8>)
    requires
        data.len() <= u32::MAX,
        data.len() <= isize::MAX,
        data.len() + t.len() + HEADER_LEN <= usize::MAX,
    ensures
        spec_decompress(spec_compress_bwt(data, level, primary_index(data)) + t) == Ok::<
            Seq<u8>,
            BmrcError,
        >(data),
{
    let idx = primary_index(data);
    if data.len() > 0 {
        lemma_primary_index(data);
    }
    let l = clamp_level(level);
    let bt = spec_bwt(data);
    let payload = spec_encode_payload(bt, l);
    assert(clamp_level(l) == l);
    if data.len() == 0 || payload.len() + 4 >= data.len() {
        lemma_compress_roundtrip_trailing(data, l, t);
    } else {
        let h = Header { level: l, flags: FLAG_BWT, original_len: data.len() as u64 };
        let ib = spec_u32_to_le_bytes(idx);
        let rest = ib + payload + t;
        lemma_header_roundtrip(h, rest);
        assert(header_bytes(h) + ib + payload + t =~= header_bytes(h) + rest);
        vstd::bytes::lemma_auto_spec_u32_to_from_le_bytes();
        assert(rest.subrange(0, 4) =~= ib);
        assert(rest.subrange(4, rest.len() as int) =~= payload + t);
        assert(FLAG_BWT & FLAG_STORED == 0) by (bit_vector);
        assert(FLAG_BWT & FLAG_BWT != 0) by (bit_vector);
        assert(bt.len() == data.len());
        lemma_payload_roundtrip(bt, l, t);
        lemma_bwt_roundtrip(data, idx);
    }
}

/// Decompressing what [`compress_bwt`] produced gives back the data, at
/// every level.
pub proof fn lemma_compress_bwt_roundtrip(data: Seq<u8>, level: u8)
    requires
        data.len() <= u32::MAX,
        data.len() <= isize::MAX,
    ensures
        spec_decompress(spec_compress_bwt(data, level, primary_index(data))) == Ok::<Seq<u8>, BmrcError>(
            data,
        ),
{
    let t = Seq::<u8>::empty();
    lemma_compress_bwt_roundtrip_trailing(data, level, t);
    assert(spec_compress_bwt(data, level, primary_index(data)) + t =~= spec_compress_bwt(
        data,
        level,
        primary_index(data),
    ));
}

/// [`compress_bwt`] writes a BWT stream, never longer than the data plus
/// the header, or exactly what [`compress`] writes.
pub proof fn lemma_compress_bwt_shape(data: Seq<u8>, level: u8, idx: u32)
    ensures
        spec_compress_bwt(data, level, idx)[5] == FLAG_BWT && spec_compress_bwt(data, level, idx).len()
            < data.len() + HEADER_LEN || spec_compress_bwt(data, level, idx) == spec_compress(data, level),
        spec_compress(data, level)[5] != FLAG_BWT,
{
    vstd::bytes::lemma_auto_spec_u64_to_from_le_bytes();
    vstd::bytes::lemma_auto_spec_u32_to_from_le_bytes();
    let l = clamp_level(level);
    assert(clamp_level(l) == l);
    let h = Header { level: l, flags: FLAG_BWT, original_len: data.len() as u64 };
    assert(header_bytes(h)[5] == FLAG_BWT);
    assert(header_bytes(h).len() == HEADER_LEN);
    assert(header_bytes(Header { level: l, flags: FLAG_STORED, original_len: data.len() as u64 })[5]
        == FLAG_STORED);
    assert(header_bytes(Header { level: l, flags: 0, original_len: data.len() as u64 })[5] == 0);
}

/// An out-of-range level behaves as the nearest valid one, and the header
/// records the level that was used.
pub proof fn lemma_level_clamped(data: Seq<u8>, level: u8, idx: u32)
    ensures
        spec_compress(data, level) == spec_compress(data, clamp_level(level)),
        spec_compress(data, level)[4] == clamp_level(level),
        spec_compress_bwt(data, level, idx) == spec_compress_bwt(data, clamp_level(level), idx),
        spec_compress_bwt(data, level, idx)[4] == clamp_level(level),
{
    let l = clamp_level(level);
    assert(clamp_level(l) == l);
    assert(header_bytes(Header { level: l, flags: FLAG_STORED, original_len: data.len() as u64 })[4] == l);
    assert(header_bytes(Header { level: l, flags: 0, original_len: data.len() as u64 })[4] == l);
    assert(header_bytes(Header { level: l, flags: FLAG_BWT, original_len: data.len() as u64 })[4] == l);
}

// ---------------------------------------------------------------------------
// The stream layout, byte by byte.
// ---------------------------------------------------------------------------

/// A stored stream carries its data verbatim: a stream that opens with
/// `"BMR1"`, has the stored flag, records the length of `d` and continues
/// with `d` decompresses to `d`, whatever level it names and whatever bytes
/// follow.
pub proof fn lemma_stored_stream_verbatim(s: Seq<u8>, d: Seq<u8>)
    requires
        d.len() <= usize::MAX,
        s.len() >= 14 + d.len(),
        s.subrange(0, 4) == seq![0x42u8, 0x4Du8, 0x52u8, 0x31u8],
        s[5] & 1 != 0,
        spec_u64_from_le_bytes(s.subrange(6, 14)) == d.len(),
        s.subrange(14, 14 + d.len() as int) == d,
    ensures
        spec_decompress(s) == Ok::<Seq<u8>, BmrcError>(d),
{
    assert(magic_seq() == seq![0x42u8, 0x4Du8, 0x52u8, 0x31u8]);
    assert(s.subrange(14, s.len() as int).subrange(0, d.len() as int) =~= s.subrange(14, 14 + d.len() as int));
}

/// A coded stream decodes with the model of the level its header names: a
/// stream that opens with `"BMR1"`, has neither the stored nor the BWT
/// flag and records a length `n` up to `isize::MAX` decompresses to the `n`
/// bytes that decoding its payload at level `s[4]` gives.
pub proof fn lemma_coded_stream_level(s: Seq<u8>)
    requires
        s.len() >= 14,
        s.subrange(0, 4) == seq![0x42u8, 0x4Du8, 0x52u8, 0x31u8],
        s[5] & 3 == 0,
        spec_u64_from_le_bytes(s.subrange(6, 14)) <= isize::MAX,
    ensures
        spec_decompress(s) == Ok::<Seq<u8>, BmrcError>(
            spec_decode_payload(
                s.subrange(14, s.len() as int),
                s[4],
                spec_u64_from_le_bytes(s.subrange(6, 14)) as nat,
            ),
        ),
{
    assert(magic_seq() == seq![0x42u8, 0x4Du8, 0x52u8, 0x31u8]);
    let f = s[5];
    assert(f & 3 == 0 ==> f & FLAG_STORED == 0 && f & FLAG_BWT == 0) by (bit_vector);
    let n = spec_u64_from_le_bytes(s.subrange(6, 14));
    assert(n <= isize::MAX ==> (n as usize) as nat == n as nat);
}

/// What [`compress`] writes, byte by byte: `"BMR1"`, the level limited to
/// `1..=10`, a flag byte, the data length as a little-endian u64, then
/// either the data coded at that level (flag 0) when that is shorter than
/// the data, or else the data itself (stored flag).
pub proof fn lemma_compress_layout(d: Seq<u8>, level: u8)
    requires
        d.len() <= usize::MAX,
    ensures
        ({
            let s = spec_compress(d, level);
            let l = if level < 1 { 1u8 } else if level > 10 { 10u8 } else { level };
            let p = spec_encode_payload(d, l);
            &&& s.len() >= 14
            &&& s.subrange(0, 4) == seq![0x42u8, 0x4Du8, 0x52u8, 0x31u8]
            &&& s[4] == l
            &&& spec_u64_from_le_bytes(s.subrange(6, 14)) == d.len()
            &&& p.len() < d.len() ==> s[5] == 0 && s.subrange(14, s.len() as int) == p
            &&& p.len() >= d.len() ==> s[5] == 1 && s.subrange(14, s.len() as int) == d
        }),
{
    let s = spec_compress(d, level);
    let l = clamp_level(level);
    vstd::bytes::lemma_auto_spec_u64_to_from_le_bytes();
    let flags: u8 = if spec_encode_payload(d, l).len() >= d.len() { FLAG_STORED } else { 0 };
    let h = Header { level: l, flags, original_len: d.len() as u64 };
    let rest = if flags == FLAG_STORED { d } else { spec_encode_payload(d, l) };
    assert(s == header_bytes(h) + rest);
    assert(header_bytes(h).len() == 14);
    assert(s.subrange(0, 4) =~= seq![0x42u8, 0x4Du8, 0x52u8, 0x31u8]);
    assert(s.subrange(6, 14) =~= vstd::bytes::spec_u64_to_le_bytes(d.len() as u64));
    assert(s.subrange(14, s.len() as int) =~= rest);
}

/// What [`compress_bwt`] writes with primary index `idx`: for data that is
/// not empty and whose transform codes, at the limited level, to at least
/// five bytes fewer than the data, a BWT stream: `"BMR1"`, the level, the
/// BWT flag, the data length, `idx` as a little-endian u32 and the coded
/// transform. Otherwise exactly what [`compress`] writes.
pub proof fn lemma_compress_bwt_layout(d: Seq<u8>, level: u8, idx: u32)
    requires
        d.len() <= usize::MAX,
    ensures
        ({
            let s = spec_compress_bwt(d, level, idx);
            let l = if level < 1 { 1u8 } else if level > 10 { 10u8 } else { level };
            let p = spec_encode_payload(spec_bwt(d), l);
            &&& d.len() > 0 && p.len() + 4 < d.len() ==> {
                &&& s.len() == 18 + p.len()
                &&& s.subrange(0, 4) == seq![0x42u8, 0x4Du8, 0x52u8, 0x31u8]
                &&& s[4] == l
                &&& s[5] == 2
                &&& spec_u64_from_le_bytes(s.subrange(6, 14)) == d.len()
                &&& spec_u32_from_le_bytes(s.subrange(14, 18)) == idx
                &&& s.subrange(18, s.len() as int) == p
            }
            &&& !(d.len() > 0 && p.len() + 4 < d.len()) ==> s == spec_compress(d, level)
        }),
{
    let s = spec_compress_bwt(d, level, idx);
    let l = clamp_level(level);
    assert(clamp_level(l) == l);
    vstd::bytes::lemma_auto_spec_u64_to_from_le_bytes();
    vstd::bytes::lemma_auto_spec_u32_to_from_le_bytes();
    let p = spec_encode_payload(spec_bwt(d), l);
    if d.len() > 0 && p.len() + 4 < d.len() {
        let h = Header { level: l, flags: FLAG_BWT, original_len: d.len() as u64 };
        let ib = spec_u32_to_le_bytes(idx);
        assert(header_bytes(h).len() == 14);
        assert(s == header_bytes(h) + ib + p);
        assert(s.subrange(0, 4) =~= seq![0x42u8, 0x4Du8, 0x52u8, 0x31u8]);
        assert(s.subrange(6, 14) =~= vstd::bytes::spec_u64_to_le_bytes(d.len() as u64));
        assert(s.subrange(14, 18) =~= ib);
        assert(s.subrange(18, s.len() as int) =~= p);
    }
}

} // verus!
