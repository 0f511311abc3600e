//! Binary range coder: the final entropy-coding stage of BMRC.
//!
//! A 32-bit carry-less binary range coder in the style of the `fpaq0` /
//! `lpaq` compressors. For every bit it takes a 12-bit probability `p1`
//! (the probability that the bit is `1`, in `1..=4095`) and narrows the
//! current interval `[x1, x2]` accordingly. Whenever the leading bytes of
//! `x1` and `x2` agree, that byte is final and is shifted out.
//!
//! The decoder mirrors the encoder bit for bit: given the same sequence of
//! probabilities it recovers the same bits (see [`lemma_range_coder_roundtrip`]).

use vstd::prelude::*;
use vstd::arithmetic::div_mod::*;

verus! {

/// Mask selecting the top byte of a 32-bit interval bound.
const TOP_MASK: u32 = 0xFF00_0000;
/// Number of bits of the probability scale.
const PSCALE_BITS: u64 = 12;

/// The abstract state of an encoder: the current interval and the bytes
/// emitted so far.
pub struct CoderState {
    pub x1: u32,
    pub x2: u32,
    pub out: Seq<u8>,
}

/// The abstract state of a decoder: the interval, the 32-bit window of the
/// input it compares against, and the read position.
pub struct DecState {
    pub x1: u32,
    pub x2: u32,
    pub x: u32,
    pub pos: nat,
}

/// A probability accepted by the coder: `p1` scaled to `1..=4095`.
pub open spec fn valid_prob(p: u32) -> bool {
    1 <= p < 4096
}

/// A bit value: `0` or `1`.
pub open spec fn valid_bit(b: u8) -> bool {
    b == 0 || b == 1
}

/// The point that splits `[x1, x2]`: bits `1` keep `[x1, mid]`, bits `0`
/// keep `[mid + 1, x2]`.
pub open spec fn split_point(x1: u32, x2: u32, p: u32) -> int {
    x1 + ((x2 - x1) * p) / 4096
}

/// Whether the two bounds agree on their top byte.
pub open spec fn same_top(x1: u32, x2: u32) -> bool {
    x1 / 0x100_0000 == x2 / 0x100_0000
}

/// The top byte of a bound.
pub open spec fn top_byte(x: u32) -> u8 {
    (x / 0x100_0000) as u8
}

/// The initial encoder state: the full interval and no output.
pub open spec fn initial_coder() -> CoderState {
    CoderState { x1: 0, x2: 0xFFFF_FFFF, out: Seq::empty() }
}

/// An encoder state the coder can be in between bits: a non-empty interval
/// whose bounds differ in their top byte.
pub open spec fn coder_wf(s: CoderState) -> bool {
    s.x1 < s.x2 && !same_top(s.x1, s.x2)
}

/// Narrows the interval by one bit coded with probability `p`.
pub open spec fn narrow(s: CoderState, bit: u8, p: u32) -> CoderState {
    let mid = split_point(s.x1, s.x2, p);
    if bit != 0 {
        CoderState { x1: s.x1, x2: mid as u32, out: s.out }
    } else {
        CoderState { x1: (mid + 1) as u32, x2: s.x2, out: s.out }
    }
}

/// Emits the common top byte and widens both bounds by one byte.
pub open spec fn shift_out(s: CoderState) -> CoderState {
    CoderState {
        x1: ((s.x1 % 0x100_0000) * 256) as u32,
        x2: ((s.x2 % 0x100_0000) * 256 + 255) as u32,
        out: s.out.push(top_byte(s.x2)),
    }
}

/// Shifts out bytes while the top bytes agree, at most `fuel` times.
pub open spec fn normalize(s: CoderState, fuel: nat) -> CoderState
    decreases fuel,
{
    if fuel == 0 || !same_top(s.x1, s.x2) {
        s
    } else {
        normalize(shift_out(s), (fuel - 1) as nat)
    }
}

/// The encoder state after coding `bit` with probability `p`.
pub open spec fn encode_step(s: CoderState, bit: u8, p: u32) -> CoderState {
    normalize(narrow(s, bit, p), 4)
}

/// The encoder state after coding `bits[i]` with `probs[i]` for every `i`.
pub open spec fn encode_bits(s: CoderState, bits: Seq<u8>, probs: Seq<u32>) -> CoderState
    decreases bits.len(),
{
    if bits.len() == 0 {
        s
    } else {
        encode_bits(encode_step(s, bits[0], probs[0]), bits.drop_first(), probs.drop_first())
    }
}

/// The four bytes of `x`, most significant first.
pub open spec fn be_bytes(x: u32) -> Seq<u8> {
    seq![
        (x / 0x100_0000) as u8,
        ((x / 0x1_0000) % 256) as u8,
        ((x / 0x100) % 256) as u8,
        (x % 256) as u8,
    ]
}

/// The byte stream of a finished encoder: what it emitted, then `x1`.
pub open spec fn finish_bytes(s: CoderState) -> Seq<u8> {
    s.out + be_bytes(s.x1)
}

/// The byte stream that codes `bits` with `probs` from a fresh encoder.
pub open spec fn range_encode(bits: Seq<u8>, probs: Seq<u32>) -> Seq<u8> {
    finish_bytes(encode_bits(initial_coder(), bits, probs))
}

/// The byte at `i`, reading zeros past the end.
pub open spec fn byte_at(s: Seq<u8>, i: int) -> u8 {
    if 0 <= i < s.len() {
        s[i]
    } else {
        0
    }
}

/// The big-endian 32-bit window of `s` starting at `q`, zero-padded.
pub open spec fn window(s: Seq<u8>, q: int) -> int {
    byte_at(s, q) * 0x100_0000 + byte_at(s, q + 1) * 0x1_0000 + byte_at(s, q + 2) * 0x100
        + byte_at(s, q + 3)
}

/// The smaller of two naturals.
pub open spec fn min_nat(a: nat, b: nat) -> nat {
    if a <= b {
        a
    } else {
        b
    }
}

/// The read position after one more byte is read: it counts every byte
/// read, including the zeros read past the end, and stops at `usize::MAX`.
pub open spec fn next_pos(pos: nat) -> nat {
    if pos < usize::MAX {
        pos + 1
    } else {
        pos
    }
}

/// The initial decoder state over `input`: the full interval, the first
/// four bytes of input (zeros past its end) and the read position after
/// them.
pub open spec fn initial_decoder(input: Seq<u8>) -> DecState {
    DecState { x1: 0, x2: 0xFFFF_FFFF, x: window(input, 0) as u32, pos: 4 }
}

/// The decoder state after shifting one byte of `input` into the window.
pub open spec fn dec_shift(d: DecState, input: Seq<u8>) -> DecState {
    DecState {
        x1: ((d.x1 % 0x100_0000) * 256) as u32,
        x2: ((d.x2 % 0x100_0000) * 256 + 255) as u32,
        x: ((d.x % 0x100_0000) * 256 + byte_at(input, d.pos as int)) as u32,
        pos: next_pos(d.pos),
    }
}

/// Shifts while the top bytes agree, at most `fuel` times.
pub open spec fn dec_normalize(d: DecState, input: Seq<u8>, fuel: nat) -> DecState
    decreases fuel,
{
    if fuel == 0 || !same_top(d.x1, d.x2) {
        d
    } else {
        dec_normalize(dec_shift(d, input), input, (fuel - 1) as nat)
    }
}

/// The bit decoded with probability `p` from state `d`.
pub open spec fn dec_bit(d: DecState, p: u32) -> u8 {
    if d.x <= split_point(d.x1, d.x2, p) {
        1
    } else {
        0
    }
}

/// The decoder state after decoding one bit with probability `p`.
pub open spec fn dec_next(d: DecState, input: Seq<u8>, p: u32) -> DecState {
    let mid = split_point(d.x1, d.x2, p);
    let n = if dec_bit(d, p) != 0 {
        DecState { x1: d.x1, x2: mid as u32, x: d.x, pos: d.pos }
    } else {
        DecState { x1: (mid + 1) as u32, x2: d.x2, x: d.x, pos: d.pos }
    };
    dec_normalize(n, input, 4)
}

/// The bits decoded from `input` with `probs[i]` for the `i`-th bit.
pub open spec fn decode_bits(d: DecState, input: Seq<u8>, probs: Seq<u32>) -> Seq<u8>
    decreases probs.len(),
{
    if probs.len() == 0 {
        Seq::empty()
    } else {
        seq![dec_bit(d, probs[0])] + decode_bits(dec_next(d, input, probs[0]), input, probs.drop_first())
    }
}

/// A decoder state that tracks the encoder state `e` while reading the
/// final stream `f`.
pub open spec fn tracks(d: DecState, e: CoderState, f: Seq<u8>) -> bool {
    &&& d.x1 == e.x1
    &&& d.x2 == e.x2
    &&& d.x == window(f, e.out.len() as int)
    &&& d.pos == min_nat(e.out.len() + 4, usize::MAX as nat)
    &&& f.len() <= usize::MAX
}

/// The final stream `f` continues what `e` emitted, and the window of `f`
/// after that output lies in `e`'s interval.
pub open spec fn consistent(e: CoderState, f: Seq<u8>) -> bool {
    &&& e.out.len() <= f.len()
    &&& f.subrange(0, e.out.len() as int) == e.out
    &&& e.x1 <= window(f, e.out.len() as int) <= e.x2
}

// ---------------------------------------------------------------------------
// Lemmas about a single coding step.
// ---------------------------------------------------------------------------

proof fn lemma_split_point_bounds(x1: u32, x2: u32, p: u32)
    requires
        x1 < x2,
        valid_prob(p),
    ensures
        x1 <= split_point(x1, x2, p) < x2,
{
    let r = x2 - x1;
    assert(0 <= r * p <= r * 4095) by (nonlinear_arith)
        requires r > 0, 1 <= p <= 4095;
    assert((r * p) / 4096 < r) by (nonlinear_arith)
        requires r > 0, 0 <= r * p <= r * 4095;
    assert((r * p) / 4096 >= 0) by (nonlinear_arith)
        requires r * p >= 0;
}

proof fn lemma_narrow_ordered(s: CoderState, bit: u8, p: u32)
    requires
        coder_wf(s),
        valid_prob(p),
    ensures
        narrow(s, bit, p).x1 <= narrow(s, bit, p).x2,
        s.x1 <= narrow(s, bit, p).x1,
        narrow(s, bit, p).x2 <= s.x2,
        narrow(s, bit, p).out == s.out,
{
    lemma_split_point_bounds(s.x1, s.x2, p);
}

/// The low `k` bytes of `x1` are zero and those of `x2` are `0xFF`.
spec fn filled(x1: u32, x2: u32, k: nat) -> bool {
    ||| k == 0
    ||| k == 1 && x1 % 0x100 == 0 && x2 % 0x100 == 0xFF
    ||| k == 2 && x1 % 0x1_0000 == 0 && x2 % 0x1_0000 == 0xFFFF
    ||| k == 3 && x1 % 0x100_0000 == 0 && x2 % 0x100_0000 == 0xFF_FFFF
    ||| k == 4 && x1 == 0 && x2 == 0xFFFF_FFFF
}

proof fn lemma_shift_out_filled(s: CoderState, k: nat)
    requires
        s.x1 <= s.x2,
        same_top(s.x1, s.x2),
        k < 4,
        filled(s.x1, s.x2, k),
    ensures
        shift_out(s).x1 <= shift_out(s).x2,
        filled(shift_out(s).x1, shift_out(s).x2, k + 1),
{
    let a = s.x1 % 0x100_0000;
    let b = s.x2 % 0x100_0000;
    assert(s.x1 == (s.x1 / 0x100_0000) * 0x100_0000 + a);
    assert(s.x2 == (s.x2 / 0x100_0000) * 0x100_0000 + b);
    assert(a <= b);
    let n1 = a * 256;
    let n2 = b * 256 + 255;
    assert(n1 <= n2);
    assert(n2 < 0x1_0000_0000);
    assert(shift_out(s).x1 == n1);
    assert(shift_out(s).x2 == n2);
    if k == 0 {
        assert(n1 % 0x100 == 0);
        assert(n2 % 0x100 == 0xFF);
    } else if k == 1 {
        assert(a % 0x100 == 0);
        assert(b % 0x100 == 0xFF);
        assert(n1 % 0x1_0000 == 0);
        assert(n2 % 0x1_0000 == 0xFFFF);
    } else if k == 2 {
        assert(a % 0x1_0000 == 0);
        assert(b % 0x1_0000 == 0xFFFF);
        assert(n1 % 0x100_0000 == 0);
        assert(n2 % 0x100_0000 == 0xFF_FFFF);
    } else {
        assert(a == 0);
        assert(b == 0xFF_FFFF);
    }
}

proof fn lemma_normalize_wf(s: CoderState, fuel: nat)
    requires
        s.x1 <= s.x2,
        fuel <= 4,
        filled(s.x1, s.x2, (4 - fuel) as nat),
    ensures
        coder_wf(normalize(s, fuel)),
        normalize(s, fuel).out.len() >= s.out.len(),
    decreases fuel,
{
    if fuel == 0 {
        assert(s.x1 == 0 && s.x2 == 0xFFFF_FFFF);
    } else if !same_top(s.x1, s.x2) {
    } else {
        lemma_shift_out_filled(s, (4 - fuel) as nat);
        lemma_normalize_wf(shift_out(s), (fuel - 1) as nat);
    }
}

/// Coding a bit keeps the encoder well formed.
pub proof fn lemma_encode_step_wf(s: CoderState, bit: u8, p: u32)
    requires
        coder_wf(s),
        valid_prob(p),
    ensures
        coder_wf(encode_step(s, bit, p)),
        encode_step(s, bit, p).out.len() >= s.out.len(),
{
    lemma_narrow_ordered(s, bit, p);
    lemma_normalize_wf(narrow(s, bit, p), 4);
}

proof fn lemma_window_shift(f: Seq<u8>, q: int)
    ensures
        0 <= window(f, q) < 0x1_0000_0000,
        window(f, q + 1) == (window(f, q) % 0x100_0000) * 256 + byte_at(f, q + 4),
        window(f, q) == byte_at(f, q) * 0x100_0000 + window(f, q + 1) / 256,
{
    let b0 = byte_at(f, q) as int;
    let b1 = byte_at(f, q + 1) as int;
    let b2 = byte_at(f, q + 2) as int;
    let b3 = byte_at(f, q + 3) as int;
    let b4 = byte_at(f, q + 4) as int;
    let low = b1 * 0x1_0000 + b2 * 0x100 + b3;
    assert(0 <= low < 0x100_0000);
    assert(window(f, q) == b0 * 0x100_0000 + low);
    lemma_fundamental_div_mod_converse(window(f, q), 0x100_0000, b0, low);
    assert(window(f, q + 1) == low * 256 + b4);
    lemma_fundamental_div_mod_converse(window(f, q + 1), 256, low, b4);
}

proof fn lemma_shift_out_back(s: CoderState, f: Seq<u8>)
    requires
        s.x1 <= s.x2,
        same_top(s.x1, s.x2),
        consistent(shift_out(s), f),
    ensures
        consistent(s, f),
{
    let t = shift_out(s);
    let q = s.out.len() as int;
    lemma_window_shift(f, q);
    assert(f.subrange(0, q) =~= t.out.subrange(0, q));
    assert(t.out.subrange(0, q) =~= s.out);
    assert(f[q] == t.out[q]);
    assert(byte_at(f, q) == top_byte(s.x2));
    let a = s.x1 % 0x100_0000;
    let b = s.x2 % 0x100_0000;
    let top = s.x2 / 0x100_0000;
    assert(s.x1 == top * 0x100_0000 + a);
    assert(s.x2 == top * 0x100_0000 + b);
    assert(t.x1 == a * 256);
    assert(t.x2 == b * 256 + 255);
    let w1 = window(f, q + 1);
    assert(a * 256 <= w1 <= b * 256 + 255);
    assert(a <= w1 / 256 <= b) by {
        lemma_fundamental_div_mod(w1, 256);
    }
    assert(top < 256);
}

proof fn lemma_normalize_back(s: CoderState, fuel: nat, f: Seq<u8>)
    requires
        s.x1 <= s.x2,
        consistent(normalize(s, fuel), f),
    ensures
        consistent(s, f),
    decreases fuel,
{
    if fuel == 0 || !same_top(s.x1, s.x2) {
    } else {
        let t = shift_out(s);
        let a = s.x1 % 0x100_0000;
        let b = s.x2 % 0x100_0000;
        assert(s.x1 == (s.x1 / 0x100_0000) * 0x100_0000 + a);
        assert(s.x2 == (s.x2 / 0x100_0000) * 0x100_0000 + b);
        assert(t.x1 <= t.x2);
        lemma_normalize_back(t, (fuel - 1) as nat, f);
        lemma_shift_out_back(s, f);
    }
}

/// If the stream is consistent with the state after a coding step, it is
/// consistent with the state before it.
pub proof fn lemma_encode_step_back(s: CoderState, bit: u8, p: u32, f: Seq<u8>)
    requires
        coder_wf(s),
        valid_prob(p),
        consistent(encode_step(s, bit, p), f),
    ensures
        consistent(narrow(s, bit, p), f),
        consistent(s, f),
{
    lemma_narrow_ordered(s, bit, p);
    lemma_normalize_back(narrow(s, bit, p), 4, f);
}

proof fn lemma_dec_normalize_tracks(d: DecState, e: CoderState, f: Seq<u8>, fuel: nat)
    requires
        tracks(d, e, f),
    ensures
        tracks(dec_normalize(d, f, fuel), normalize(e, fuel), f),
    decreases fuel,
{
    if fuel == 0 || !same_top(e.x1, e.x2) {
    } else {
        let q = e.out.len() as int;
        lemma_window_shift(f, q);
        let d2 = dec_shift(d, f);
        let e2 = shift_out(e);
        assert(byte_at(f, d.pos as int) == byte_at(f, q + 4));
        assert(d2.x == window(f, q + 1));
        assert(tracks(d2, e2, f));
        lemma_dec_normalize_tracks(d2, e2, f, (fuel - 1) as nat);
    }
}

/// A decoder that tracks the encoder decodes the bit the encoder coded, and
/// keeps tracking it.
pub proof fn lemma_decode_step(d: DecState, e: CoderState, f: Seq<u8>, bit: u8, p: u32)
    requires
        coder_wf(e),
        valid_prob(p),
        valid_bit(bit),
        tracks(d, e, f),
        consistent(encode_step(e, bit, p), f),
    ensures
        dec_bit(d, p) == bit,
        tracks(dec_next(d, f, p), encode_step(e, bit, p), f),
{
    lemma_encode_step_back(e, bit, p, f);
    let mid = split_point(e.x1, e.x2, p);
    lemma_split_point_bounds(e.x1, e.x2, p);
    let n = narrow(e, bit, p);
    let dn = if dec_bit(d, p) != 0 {
        DecState { x1: d.x1, x2: mid as u32, x: d.x, pos: d.pos }
    } else {
        DecState { x1: (mid + 1) as u32, x2: d.x2, x: d.x, pos: d.pos }
    };
    assert(tracks(dn, n, f));
    lemma_dec_normalize_tracks(dn, n, f, 4);
}

proof fn lemma_be_bytes_window(x: u32, prefix: Seq<u8>, t: Seq<u8>)
    ensures
        window(prefix + be_bytes(x) + t, prefix.len() as int) == x,
{
    let f = prefix + be_bytes(x) + t;
    let q = prefix.len() as int;
    let b0 = x / 0x100_0000;
    let b1 = (x / 0x1_0000) % 256;
    let b2 = (x / 0x100) % 256;
    let b3 = x % 256;
    assert(byte_at(f, q) == b0);
    assert(byte_at(f, q + 1) == b1);
    assert(byte_at(f, q + 2) == b2);
    assert(byte_at(f, q + 3) == b3);
    lemma_fundamental_div_mod(x as int, 0x100_0000);
    lemma_fundamental_div_mod(x as int, 0x1_0000);
    lemma_fundamental_div_mod(x as int, 0x100);
    lemma_fundamental_div_mod(x as int, 256);
    lemma_fundamental_div_mod(x as int / 0x1_0000, 256);
    lemma_fundamental_div_mod(x as int / 0x100, 256);
    lemma_div_denominator(x as int, 0x100, 256);
    lemma_div_denominator(x as int, 0x1_0000, 256);
}

/// A finished encoder's stream, followed by any bytes `t`, is consistent
/// with its final state.
pub proof fn lemma_finish_consistent(s: CoderState, t: Seq<u8>)
    requires
        s.x1 <= s.x2,
    ensures
        consistent(s, finish_bytes(s) + t),
{
    lemma_be_bytes_window(s.x1, s.out, t);
    assert((finish_bytes(s) + t).subrange(0, s.out.len() as int) =~= s.out);
}

/// Every state on the way to a consistent final state is consistent.
pub proof fn lemma_encode_bits_back(s: CoderState, bits: Seq<u8>, probs: Seq<u32>, f: Seq<u8>)
    requires
        coder_wf(s),
        bits.len() == probs.len(),
        forall|i: int| 0 <= i < probs.len() ==> valid_prob(#[trigger] probs[i]),
        consistent(encode_bits(s, bits, probs), f),
    ensures
        consistent(s, f),
        coder_wf(encode_bits(s, bits, probs)),
    decreases bits.len(),
{
    if bits.len() > 0 {
        let t = encode_step(s, bits[0], probs[0]);
        lemma_encode_step_wf(s, bits[0], probs[0]);
        assert forall|i: int| 0 <= i < probs.drop_first().len() implies valid_prob(
            #[trigger] probs.drop_first()[i],
        ) by {
            assert(probs.drop_first()[i] == probs[i + 1]);
        }
        lemma_encode_bits_back(t, bits.drop_first(), probs.drop_first(), f);
        lemma_encode_step_back(s, bits[0], probs[0], f);
    }
}

proof fn lemma_encode_bits_wf(s: CoderState, bits: Seq<u8>, probs: Seq<u32>)
    requires
        coder_wf(s),
        bits.len() == probs.len(),
        forall|i: int| 0 <= i < probs.len() ==> valid_prob(#[trigger] probs[i]),
    ensures
        coder_wf(encode_bits(s, bits, probs)),
    decreases bits.len(),
{
    if bits.len() > 0 {
        lemma_encode_step_wf(s, bits[0], probs[0]);
        assert forall|i: int| 0 <= i < probs.drop_first().len() implies valid_prob(
            #[trigger] probs.drop_first()[i],
        ) by {
            assert(probs.drop_first()[i] == probs[i + 1]);
        }
        lemma_encode_bits_wf(encode_step(s, bits[0], probs[0]), bits.drop_first(), probs.drop_first());
    }
}

proof fn lemma_decode_bits_tracking(
    d: DecState,
    e: CoderState,
    f: Seq<u8>,
    bits: Seq<u8>,
    probs: Seq<u32>,
)
    requires
        coder_wf(e),
        bits.len() == probs.len(),
        forall|i: int| 0 <= i < probs.len() ==> valid_prob(#[trigger] probs[i]),
        forall|i: int| 0 <= i < bits.len() ==> valid_bit(#[trigger] bits[i]),
        tracks(d, e, f),
        consistent(encode_bits(e, bits, probs), f),
    ensures
        decode_bits(d, f, probs) == bits,
    decreases bits.len(),
{
    if bits.len() > 0 {
        let t = encode_step(e, bits[0], probs[0]);
        lemma_encode_step_wf(e, bits[0], probs[0]);
        assert forall|i: int| 0 <= i < probs.drop_first().len() implies valid_prob(
            #[trigger] probs.drop_first()[i],
        ) by {
            assert(probs.drop_first()[i] == probs[i + 1]);
        }
        assert forall|i: int| 0 <= i < bits.drop_first().len() implies valid_bit(
            #[trigger] bits.drop_first()[i],
        ) by {
            assert(bits.drop_first()[i] == bits[i + 1]);
        }
        lemma_encode_bits_back(t, bits.drop_first(), probs.drop_first(), f);
        assert(valid_bit(bits[0]));
        lemma_decode_step(d, e, f, bits[0], probs[0]);
        lemma_decode_bits_tracking(
            dec_next(d, f, probs[0]),
            t,
            f,
            bits.drop_first(),
            probs.drop_first(),
        );
        assert(decode_bits(d, f, probs) =~= bits);
    }
}

/// A fresh decoder tracks a fresh encoder on any stream a slice can hold.
pub proof fn lemma_initial_tracks(f: Seq<u8>)
    requires
        f.len() <= usize::MAX,
    ensures
        tracks(initial_decoder(f), initial_coder(), f),
{
    lemma_window_shift(f, 0);
}

/// Decoding the stream that codes `bits` with `probs`, using the same
/// probabilities, gives back `bits`; bytes `t` after the stream change
/// nothing.
pub proof fn lemma_range_coder_roundtrip(bits: Seq<u8>, probs: Seq<u32>, t: Seq<u8>)
    requires
        bits.len() == probs.len(),
        forall|i: int| 0 <= i < probs.len() ==> valid_prob(#[trigger] probs[i]),
        forall|i: int| 0 <= i < bits.len() ==> valid_bit(#[trigger] bits[i]),
        range_encode(bits, probs).len() + t.len() <= usize::MAX,
    ensures
        decode_bits(initial_decoder(range_encode(bits, probs) + t), range_encode(bits, probs) + t, probs)
            == bits,
{
    let f = range_encode(bits, probs) + t;
    let e0 = initial_coder();
    assert(coder_wf(e0));
    lemma_encode_bits_wf(e0, bits, probs);
    lemma_finish_consistent(encode_bits(e0, bits, probs), t);
    lemma_initial_tracks(f);
    lemma_decode_bits_tracking(initial_decoder(f), e0, f, bits, probs);
}

// ---------------------------------------------------------------------------
// Bit-level facts linking the shifts and masks of the code to the arithmetic
// of the specification.
// ---------------------------------------------------------------------------

proof fn lemma_top_mask(x1: u32, x2: u32)
    ensures
        ((x1 ^ x2) & 0xFF00_0000u32 == 0) == same_top(x1, x2),
{
    assert(((x1 ^ x2) & 0xFF00_0000u32 == 0) == (x1 / 0x100_0000u32 == x2 / 0x100_0000u32))
        by (bit_vector);
}

proof fn lemma_shift_bits(x1: u32, x2: u32)
    ensures
        (x2 >> 24u32) as u8 == top_byte(x2),
        x1 << 8u32 == ((x1 % 0x100_0000) * 256) as u32,
        (x2 << 8u32) | 0xFFu32 == ((x2 % 0x100_0000) * 256 + 255) as u32,
{
    assert((x2 >> 24u32) == x2 / 0x100_0000u32) by (bit_vector);
    assert(x1 << 8u32 == (x1 % 0x100_0000u32) * 256u32) by (bit_vector);
    assert((x2 << 8u32) | 0xFFu32 == (x2 % 0x100_0000u32) * 256u32 + 255u32) by (bit_vector);
}

proof fn lemma_shift_in(x: u32, b: u8)
    ensures
        (x << 8u32) | (b as u32) == ((x % 0x100_0000) * 256 + b) as u32,
{
    let bb = b as u32;
    assert(bb < 256);
    assert(bb < 256u32 ==> (x << 8u32) | bb == (x % 0x100_0000u32) * 256u32 + bb) by (bit_vector);
}

proof fn lemma_split_bits(x1: u32, x2: u32, p: u32)
    requires
        x1 < x2,
        valid_prob(p),
    ensures
        ((((x2 - x1) as u64) * (p as u64)) as u64) >> 12u64 == ((x2 - x1) * p) / 4096,
{
    let r = (x2 - x1) as u64;
    assert(r * p < 0x1000_0000_0000) by (nonlinear_arith)
        requires r < 0x1_0000_0000, p < 4096;
    let v: u64 = (r * (p as u64)) as u64;
    assert(v == (x2 - x1) * p);
    assert(v >> 12u64 == v / 4096u64) by (bit_vector);
}

// ---------------------------------------------------------------------------
// The encoder.
// ---------------------------------------------------------------------------

/// Range coder encoder. Produces a byte stream that a [`Decoder`], given the
/// same sequence of probabilities, turns back into the same bits.
pub struct Encoder {
    x1: u32,
    x2: u32,
    out: Vec<u8>,
}

impl View for Encoder {
    type V = CoderState;

    closed spec fn view(&self) -> CoderState {
        CoderState { x1: self.x1, x2: self.x2, out: self.out@ }
    }
}

impl Encoder {
    /// The encoder's interval is non-empty and not yet ready to shift.
    pub closed spec fn wf(&self) -> bool {
        coder_wf(self@)
    }

    /// A fresh encoder: the full interval and no output.
    pub fn new() -> (e: Self)
        ensures
            e@ == initial_coder(),
            e.wf(),
    {
        Encoder { x1: 0, x2: 0xFFFF_FFFF, out: Vec::new() }
    }

    /// Encodes one bit given `p1`, the probability (scaled to `1..=4095`)
    /// that the bit is `1`. Any nonzero `bit` counts as `1`.
    pub fn encode_bit(&mut self, bit: u8, p1: u32)
        requires
            old(self).wf(),
            valid_prob(p1),
        ensures
            final(self).wf(),
            final(self)@ == encode_step(old(self)@, bit, p1),
    {
        let range = (self.x2 - self.x1) as u64;
        proof {
            lemma_split_bits(self.x1, self.x2, p1);
            lemma_split_point_bounds(self.x1, self.x2, p1);
        }
        let xmid = self.x1 + ((range * p1 as u64) >> PSCALE_BITS) as u32;
        assert(xmid == split_point(old(self)@.x1, old(self)@.x2, p1));
        if bit != 0 {
            self.x2 = xmid;
        } else {
            self.x1 = xmid + 1;
        }
        let ghost start = self@;
        assert(start == narrow(old(self)@, bit, p1));
        let ghost mut k: nat = 0;
        loop
            invariant
                k <= 4,
                filled(self.x1, self.x2, k),
                self.x1 <= self.x2,
                normalize(self@, (4 - k) as nat) == normalize(start, 4),
            ensures
                !same_top(self.x1, self.x2),
            decreases 4 - k,
        {
            proof {
                lemma_top_mask(self.x1, self.x2);
            }
            if (self.x1 ^ self.x2) & TOP_MASK != 0 {
                break;
            }
            proof {
                if k == 4 {
                    assert(!same_top(0, 0xFFFF_FFFF));
                }
                lemma_shift_bits(self.x1, self.x2);
                lemma_shift_out_filled(self@, k);
            }
            let ghost before = self@;
            self.out.push((self.x2 >> 24) as u8);
            self.x1 = self.x1 << 8;
            self.x2 = (self.x2 << 8) | 0xFF;
            assert(self@ == shift_out(before));
            proof {
                k = k + 1;
            }
        }
        proof {
            lemma_top_mask(self.x1, self.x2);
        }
    }

    /// Flushes the remaining state and returns the encoded byte stream.
    pub fn finish(self) -> (r: Vec<u8>)
        ensures
            r@ == finish_bytes(self@),
    {
        let x1 = self.x1;
        let mut out = self.out;
        assert((x1 >> 24u32) == x1 / 0x100_0000u32) by (bit_vector);
        assert(((x1 >> 16u32) & 0xFFu32) == (x1 / 0x1_0000u32) % 256u32) by (bit_vector);
        assert(((x1 >> 8u32) & 0xFFu32) == (x1 / 0x100u32) % 256u32) by (bit_vector);
        assert((x1 & 0xFFu32) == x1 % 256u32) by (bit_vector);
        out.push((x1 >> 24) as u8);
        out.push(((x1 >> 16) & 0xFF) as u8);
        out.push(((x1 >> 8) & 0xFF) as u8);
        out.push((x1 & 0xFF) as u8);
        assert(out@ =~= finish_bytes(self@));
        out
    }
}

impl Default for Encoder {
    fn default() -> (e: Self)
        ensures
            e@ == initial_coder(),
            e.wf(),
    {
        Encoder::new()
    }
}

// ---------------------------------------------------------------------------
// The decoder.
// ---------------------------------------------------------------------------

/// Range coder decoder. Mirrors [`Encoder`] bit for bit: for every bit the
/// caller supplies the same probability `p1` that was used to encode it.
pub struct Decoder<'a> {
    x1: u32,
    x2: u32,
    x: u32,
    input: &'a [u8],
    pos: usize,
}

impl<'a> Decoder<'a> {
    /// The abstract state of the decoder.
    pub closed spec fn state(&self) -> DecState {
        DecState { x1: self.x1, x2: self.x2, x: self.x, pos: self.pos as nat }
    }

    /// The input the decoder reads.
    pub closed spec fn input(&self) -> Seq<u8> {
        self.input@
    }

    /// The decoder's interval is non-empty and not ready to shift.
    pub closed spec fn wf(&self) -> bool {
        &&& self.x1 < self.x2
        &&& !same_top(self.x1, self.x2)
    }

    /// A decoder over `input`, primed with its first four bytes.
    pub fn new(input: &'a [u8]) -> (d: Self)
        ensures
            d.state() == initial_decoder(input@),
            d.input() == input@,
            d.wf(),
    {
        let mut d = Decoder { x1: 0, x2: 0xFFFF_FFFF, x: 0, input, pos: 0 };
        let b0 = d.next_byte();
        let b1 = d.next_byte();
        let b2 = d.next_byte();
        let b3 = d.next_byte();
        proof { lemma_shift_in(d.x, b0); }
        d.x = (d.x << 8) | b0 as u32;
        proof { lemma_shift_in(d.x, b1); }
        d.x = (d.x << 8) | b1 as u32;
        proof { lemma_shift_in(d.x, b2); }
        d.x = (d.x << 8) | b2 as u32;
        proof { lemma_shift_in(d.x, b3); }
        d.x = (d.x << 8) | b3 as u32;
        assert(d.x == window(input@, 0));
        d
    }

    /// The byte at the read position, or zero past the end; the position
    /// moves on either way.
    fn next_byte(&mut self) -> (b: u8)
        ensures
            b == byte_at(old(self).input@, old(self).pos as int),
            final(self).pos == next_pos(old(self).pos as nat),
            final(self).x1 == old(self).x1,
            final(self).x2 == old(self).x2,
            final(self).x == old(self).x,
            final(self).input == old(self).input,
    {
        let b = if self.pos < self.input.len() {
            self.input[self.pos]
        } else {
            0
        };
        if self.pos < usize::MAX {
            self.pos += 1;
        }
        b
    }

    /// Decodes one bit given `p1`, the probability (scaled to `1..=4095`)
    /// that the bit is `1`. Must be called with the same sequence of
    /// probabilities used by [`Encoder::encode_bit`].
    pub fn decode_bit(&mut self, p1: u32) -> (bit: u8)
        requires
            old(self).wf(),
            valid_prob(p1),
        ensures
            final(self).wf(),
            bit == dec_bit(old(self).state(), p1),
            final(self).state() == dec_next(old(self).state(), old(self).input(), p1),
            final(self).input() == old(self).input(),
    {
        let range = (self.x2 - self.x1) as u64;
        proof {
            lemma_split_bits(self.x1, self.x2, p1);
            lemma_split_point_bounds(self.x1, self.x2, p1);
        }
        let xmid = self.x1 + ((range * p1 as u64) >> PSCALE_BITS) as u32;
        let bit: u8 = if self.x <= xmid { 1 } else { 0 };
        if bit != 0 {
            self.x2 = xmid;
        } else {
            self.x1 = xmid + 1;
        }
        let ghost start = self.state();
        let ghost input = self.input@;
        let ghost mut k: nat = 0;
        loop
            invariant
                k <= 4,
                filled(self.x1, self.x2, k),
                self.x1 <= self.x2,
                self.input@ == input,
                dec_normalize(self.state(), input, (4 - k) as nat) == dec_normalize(start, input, 4),
            ensures
                !same_top(self.x1, self.x2),
            decreases 4 - k,
        {
            proof {
                lemma_top_mask(self.x1, self.x2);
            }
            if (self.x1 ^ self.x2) & TOP_MASK != 0 {
                break;
            }
            proof {
                if k == 4 {
                    assert(!same_top(0, 0xFFFF_FFFF));
                }
                lemma_shift_bits(self.x1, self.x2);
                lemma_shift_out_filled(CoderState { x1: self.x1, x2: self.x2, out: Seq::empty() }, k);
            }
            let ghost before = self.state();
            self.x1 = self.x1 << 8;
            self.x2 = (self.x2 << 8) | 0xFF;
            let b = self.next_byte();
            proof {
                lemma_shift_in(self.x, b);
            }
            self.x = (self.x << 8) | b as u32;
            assert(self.state() == dec_shift(before, input));
            proof {
                k = k + 1;
            }
        }
        proof {
            lemma_top_mask(self.x1, self.x2);
        }
        bit
    }
}

} // verus!
