//! The `.bmrc` container header.
//!
//! A BMRC stream is a 14-byte header followed by the payload:
//!
//! ```text
//! Offset Size Field
//! 0      4    Magic bytes "BMR1"
//! 4      1    Compression level (1-10)
//! 5      1    Flags (bit 0: stored verbatim, bit 1: BWT pre-pass)
//! 6      8    Original data size, little-endian u64
//! 14     ..   Payload: raw bytes or range-coded bitstream
//! ```
//!
//! The header does not identify the model that coded the payload; a coded
//! payload decodes correctly only with this library's fixed-point model
//! (see the crate documentation).

use vstd::prelude::*;
use vstd::bytes::{spec_u64_from_le_bytes, spec_u64_to_le_bytes, u64_from_le_bytes, u64_to_le_bytes, lemma_auto_spec_u64_to_from_le_bytes};
use crate::error::BmrcError;

verus! {

/// The magic bytes `"BMR1"` that open every `.bmrc` stream.
pub const MAGIC: [u8; 4] = [0x42, 0x4D, 0x52, 0x31];

/// Flag bit: the payload is stored as-is (no entropy coding).
pub const FLAG_STORED: u8 = 0x01;

/// Flag bit: a BWT pre-pass was applied before entropy coding.
///
/// When set, the first 4 bytes of the payload hold the BWT primary index
/// (little-endian u32), followed by the entropy-coded BWT output.
pub const FLAG_BWT: u8 = 0x02;

/// Total size of the container header in bytes.
pub const HEADER_LEN: usize = 14;

/// The magic bytes as a sequence.
pub open spec fn magic_seq() -> Seq<u8> {
    seq![0x42u8, 0x4Du8, 0x52u8, 0x31u8]
}

/// The fixed-size header of a `.bmrc` stream.
#[derive(Debug, Clone, Copy, PartialEq, Eq, Structural)]
pub struct Header {
    /// Compression level the payload was coded with.
    pub level: u8,
    /// Flag bits, see [`FLAG_STORED`] and [`FLAG_BWT`].
    pub flags: u8,
    /// Length of the original, uncompressed data in bytes.
    pub original_len: u64,
}

/// The 14 bytes that encode a header.
pub open spec fn header_bytes(h: Header) -> Seq<u8> {
    magic_seq() + seq![h.level, h.flags] + spec_u64_to_le_bytes(h.original_len)
}

/// What reading a header from `data` gives: the header and the rest of the
/// input, or the error.
pub open spec fn spec_read_header(data: Seq<u8>) -> Result<(Header, Seq<u8>), BmrcError> {
    if data.len() < 14 {
        Err(BmrcError::HeaderTooShort)
    } else if data.subrange(0, 4) != magic_seq() {
        Err(BmrcError::BadMagic)
    } else {
        Ok((
            Header {
                level: data[4],
                flags: data[5],
                original_len: spec_u64_from_le_bytes(data.subrange(6, 14)),
            },
            data.subrange(14, data.len() as int),
        ))
    }
}

impl Header {
    /// Serializes the header and appends it to `out`.
    pub fn write(&self, out: &mut Vec<u8>)
        ensures
            final(out)@ == old(out)@ + header_bytes(*self),
    {
        out.push(MAGIC[0]);
        out.push(MAGIC[1]);
        out.push(MAGIC[2]);
        out.push(MAGIC[3]);
        out.push(self.level);
        out.push(self.flags);
        let bytes = u64_to_le_bytes(self.original_len);
        let mut i: usize = 0;
        let ghost start = out@;
        while i < 8
            invariant
                0 <= i <= 8,
                bytes@.len() == 8,
                out@ == start + bytes@.subrange(0, i as int),
            decreases 8 - i,
        {
            out.push(bytes[i]);
            i += 1;
            assert(bytes@.subrange(0, i as int) == bytes@.subrange(0, i - 1) + seq![bytes@[i - 1]]);
        }
        assert(bytes@.subrange(0, 8) == bytes@);
        assert(start == old(out)@ + magic_seq() + seq![self.level, self.flags]);
    }

    /// Reads a header from the start of `data` and returns it with the rest
    /// of the input.
    ///
    /// Fails with `HeaderTooShort` when `data` holds fewer than 14 bytes and
    /// with `BadMagic` when it does not start with [`MAGIC`].
    pub fn read(data: &[u8]) -> (r: Result<(Header, &[u8]), BmrcError>)
        ensures
            match r {
                Ok((h, rest)) => spec_read_header(data@) == Ok::<(Header, Seq<u8>), BmrcError>((h, rest@)),
                Err(e) => spec_read_header(data@) == Err::<(Header, Seq<u8>), BmrcError>(e),
            },
    {
        if data.len() < HEADER_LEN {
            return Err(BmrcError::HeaderTooShort);
        }
        if data[0] != MAGIC[0] || data[1] != MAGIC[1] || data[2] != MAGIC[2] || data[3] != MAGIC[3] {
            proof {
                assert(data@.subrange(0, 4) != magic_seq()) by {
                    if data@.subrange(0, 4) == magic_seq() {
                        assert(data@.subrange(0, 4)[0] == data@[0]);
                        assert(data@.subrange(0, 4)[1] == data@[1]);
                        assert(data@.subrange(0, 4)[2] == data@[2]);
                        assert(data@.subrange(0, 4)[3] == data@[3]);
                    }
                }
            }
            return Err(BmrcError::BadMagic);
        }
        assert(data@.subrange(0, 4) =~= magic_seq());
        let level = data[4];
        let flags = data[5];
        let (head, rest) = data.split_at(HEADER_LEN);
        let (_, len_bytes) = head.split_at(6);
        let original_len = u64_from_le_bytes(len_bytes);
        assert(len_bytes@ =~= data@.subrange(6, 14));
        Ok((Header { level, flags, original_len }, rest))
    }
}

/// Reading back what [`Header::write`] wrote gives the same header and the
/// bytes that followed it.
pub proof fn lemma_header_roundtrip(h: Header, rest: Seq<u8>)
    ensures
        spec_read_header(header_bytes(h) + rest) == Ok::<(Header, Seq<u8>), BmrcError>((h, rest)),
{
    lemma_auto_spec_u64_to_from_le_bytes();
    let d = header_bytes(h) + rest;
    let b = spec_u64_to_le_bytes(h.original_len);
    assert(b.len() == 8);
    assert(d.subrange(0, 4) =~= magic_seq());
    assert(d.subrange(6, 14) =~= b);
    assert(d.subrange(14, d.len() as int) =~= rest);
    assert(d[4] == h.level);
    assert(d[5] == h.flags);
}

} // verus!
