//! Adaptive Context Mixer (ACM): the bit predictor of BMRC.
//!
//! The [`Predictor`] produces, for every bit, the probability that the bit
//! is `1`, as a 12-bit integer in `1..=4095`. It combines several order-N
//! context models and a long-range match model with a gated logistic mixer,
//! and can refine the result with one or two SSE (APM) stages.
//!
//! All arithmetic is fixed point: probabilities are 12-bit (counters are
//! 16-bit), values in the logistic domain are in units of 1/256, and mixer
//! weights are in units of 2^-16. The encoder and the decoder run the same
//! predictor in lock-step; every method's contract states its effect as a
//! function of the predictor's state, so two predictors fed the same bits
//! produce the same probabilities.

use vstd::prelude::*;
use vstd::slice::slice_subrange;
use vstd::arithmetic::power2::pow2;
use crate::levels::{LevelConfig, config_for_level, clamp_level, is_config_for, orders_for, hash_bits_for, match_model_for, match_min_for, match_hash_bits_for, apm_stages_for, mixer_contexts_for, learning_rate_for, update_rate_for};

verus! {

/// The anchor points of [`squash`]: `4096 / (1 + e^-x)` at
/// `x = (i - 16) / 2`, for `i` in `0..=32`.
pub const SQUASH_POINTS: [i32; 33] = [
    1, 2, 3, 6, 10, 16, 27, 45, 73, 120, 194, 310, 488, 747, 1101, 1546, 2047, 2549, 2994, 3348,
    3607, 3785, 3901, 3975, 4024, 4050, 4068, 4079, 4085, 4089, 4092, 4093, 4094,
];

/// The anchor points as a sequence.
pub open spec fn squash_points() -> Seq<i32> {
    seq![
        1i32, 2, 3, 6, 10, 16, 27, 45, 73, 120, 194, 310, 488, 747, 1101, 1546, 2047, 2549, 2994,
        3348, 3607, 3785, 3901, 3975, 4024, 4050, 4068, 4079, 4085, 4089, 4092, 4093, 4094,
    ]
}

/// The logistic function in fixed point: maps `d` (in units of 1/256) to a
/// 12-bit probability, interpolating between the anchor points.
pub open spec fn spec_squash(d: i32) -> i32 {
    if d > 2047 {
        4095
    } else if d < -2047 {
        0
    } else {
        let u = d + 2048;
        let i = u / 128;
        let w = u % 128;
        ((squash_points()[i] * (128 - w) + squash_points()[i + 1] * w + 64) / 128) as i32
    }
}

proof fn lemma_squash_points()
    ensures
        squash_points().len() == 33,
        forall|i: int| 0 <= i < 33 ==> 0 <= #[trigger] squash_points()[i] <= 4095,
        forall|i: int| 0 <= i < 33 ==> squash_points()[i] == #[trigger] SQUASH_POINTS@[i],
{
    assert(squash_points()[0] == SQUASH_POINTS@[0]);
}

/// See [`spec_squash`].
pub fn squash(d: i32) -> (r: i32)
    ensures
        r == spec_squash(d),
        0 <= r <= 4095,
{
    proof {
        lemma_squash_points();
    }
    if d > 2047 {
        4095
    } else if d < -2047 {
        0
    } else {
        let u = d + 2048;
        let i = (u / 128) as usize;
        let w = u % 128;
        let a = SQUASH_POINTS[i];
        let b = SQUASH_POINTS[i + 1];
        assert(0 <= a * (128 - w) + b * w + 64 <= 4095 * 128 + 64) by (nonlinear_arith)
            requires 0 <= a <= 4095, 0 <= b <= 4095, 0 <= w < 128;
        (a * (128 - w) + b * w + 64) / 128
    }
}

/// Appends copies of `x` to `t` until it has an entry at index `v`.
pub open spec fn extend_to(t: Seq<i32>, v: int, x: i32) -> Seq<i32> {
    if t.len() > v {
        t
    } else {
        t + Seq::new((v + 1 - t.len()) as nat, |_i: int| x)
    }
}

/// Builds the inverse of [`spec_squash`] for `x` from `x` up to `2047`.
pub open spec fn stretch_build(t: Seq<i32>, x: int) -> Seq<i32>
    decreases 2048 - x,
{
    if x > 2047 || x < -2047 {
        t
    } else {
        stretch_build(extend_to(t, spec_squash(x as i32) as int, x as i32), x + 1)
    }
}

/// The stretch table: entry `p` is the smallest `x` in `-2047..=2047`
/// whose squash is at least `p` (or `2047`), i.e. `ln(p / (4096 - p))` in
/// units of 1/256.
pub open spec fn stretch_table() -> Seq<i32> {
    let t = stretch_build(Seq::empty(), -2047);
    t + Seq::new((4096 - t.len()) as nat, |_i: int| 2047i32)
}

/// Every entry of `t` lies in `-2047..=2047`.
pub open spec fn in_stretch_range(t: Seq<i32>) -> bool {
    forall|i: int| 0 <= i < t.len() ==> -2047 <= #[trigger] t[i] <= 2047
}

proof fn lemma_squash_range(d: i32)
    ensures
        0 <= spec_squash(d) <= 4095,
{
    lemma_squash_points();
    if -2047 <= d <= 2047 {
        let u = d + 2048;
        let i = u / 128;
        let w = u % 128;
        let a = squash_points()[i];
        let b = squash_points()[i + 1];
        assert(0 <= a * (128 - w) + b * w + 64 <= 4095 * 128 + 64) by (nonlinear_arith)
            requires 0 <= a <= 4095, 0 <= b <= 4095, 0 <= w < 128;
    }
}

proof fn lemma_stretch_build(t: Seq<i32>, x: int)
    requires
        t.len() <= 4096,
        in_stretch_range(t),
        -2047 <= x <= 2048,
    ensures
        stretch_build(t, x).len() <= 4096,
        in_stretch_range(stretch_build(t, x)),
    decreases 2048 - x,
{
    if x <= 2047 {
        lemma_squash_range(x as i32);
        let t2 = extend_to(t, spec_squash(x as i32) as int, x as i32);
        assert(in_stretch_range(t2));
        lemma_stretch_build(t2, x + 1);
    }
}

/// The stretch table has 4096 entries in `-2047..=2047`.
pub proof fn lemma_stretch_table()
    ensures
        stretch_table().len() == 4096,
        in_stretch_range(stretch_table()),
{
    lemma_stretch_build(Seq::empty(), -2047);
}

/// The anchor points rise.
proof fn lemma_squash_points_sorted(i: int, j: int)
    requires
        0 <= i <= j < 33,
    ensures
        squash_points()[i] <= squash_points()[j],
    decreases j - i,
{
    if i < j {
        lemma_squash_points_sorted(i, j - 1);
        assert(squash_points()[j - 1] <= squash_points()[j]);
    }
}

/// On one segment, the interpolated value lies between the segment's end
/// points and grows with the offset.
proof fn lemma_squash_segment(a: int, b: int, w1: int, w2: int)
    requires
        0 <= a <= b,
        0 <= w1 <= w2 < 128,
    ensures
        a <= (a * (128 - w1) + b * w1 + 64) / 128,
        (a * (128 - w1) + b * w1 + 64) / 128 <= (a * (128 - w2) + b * w2 + 64) / 128,
        (a * (128 - w2) + b * w2 + 64) / 128 <= b,
{
    let n1 = a * (128 - w1) + b * w1 + 64;
    let n2 = a * (128 - w2) + b * w2 + 64;
    assert(128 * a <= n1 && n1 <= n2 && n2 <= 128 * b + 64) by (nonlinear_arith)
        requires
            0 <= a <= b,
            0 <= w1 <= w2 < 128,
            n1 == a * (128 - w1) + b * w1 + 64,
            n2 == a * (128 - w2) + b * w2 + 64,
    ;
    vstd::arithmetic::div_mod::lemma_div_is_ordered(128 * a, n1, 128);
    vstd::arithmetic::div_mod::lemma_div_is_ordered(n1, n2, 128);
    vstd::arithmetic::div_mod::lemma_div_is_ordered(n2, 128 * b + 64, 128);
    vstd::arithmetic::div_mod::lemma_div_multiples_vanish(a, 128);
    vstd::arithmetic::div_mod::lemma_fundamental_div_mod_converse(128 * b + 64, 128, b, 64);
}

/// [`spec_squash`] never decreases.
pub proof fn lemma_squash_mono(x: i32, y: i32)
    requires
        x <= y,
    ensures
        spec_squash(x) <= spec_squash(y),
{
    lemma_squash_range(x);
    lemma_squash_range(y);
    lemma_squash_points();
    if -2047 <= x && y <= 2047 {
        let ux = x + 2048;
        let uy = y + 2048;
        let ix = ux / 128;
        let iy = uy / 128;
        vstd::arithmetic::div_mod::lemma_div_is_ordered(ux as int, uy as int, 128);
        if ix == iy {
            lemma_squash_segment(
                squash_points()[ix] as int,
                squash_points()[ix + 1] as int,
                (ux % 128) as int,
                (uy % 128) as int,
            );
        } else {
            lemma_squash_points_sorted(ix as int, ix + 1);
            lemma_squash_points_sorted(ix + 1, iy as int);
            lemma_squash_points_sorted(iy as int, iy + 1);
            lemma_squash_segment(
                squash_points()[ix] as int,
                squash_points()[ix + 1] as int,
                (ux % 128) as int,
                127,
            );
            lemma_squash_segment(
                squash_points()[iy] as int,
                squash_points()[iy + 1] as int,
                0,
                (uy % 128) as int,
            );
        }
    }
}

/// `t` is the stretch table built for the arguments below `x`: it has an
/// entry for every probability reached below `x`, and each entry is the
/// least argument whose squash reaches it.
pub open spec fn stretch_built_below(t: Seq<i32>, x: int) -> bool {
    &&& t.len() == if x == -2047 { 0 } else { spec_squash((x - 1) as i32) + 1 }
    &&& forall|p: int|
        0 <= p < t.len() ==> {
            &&& -2047 <= #[trigger] t[p] < x
            &&& spec_squash(t[p]) >= p
            &&& forall|z: i32| -2047 <= z < t[p] ==> #[trigger] spec_squash(z) < p
        }
}

proof fn lemma_stretch_build_least(t: Seq<i32>, x: int)
    requires
        -2047 <= x <= 2048,
        stretch_built_below(t, x),
    ensures
        stretch_built_below(stretch_build(t, x), 2048),
    decreases 2048 - x,
{
    if x <= 2047 {
        let v = spec_squash(x as i32) as int;
        let t2 = extend_to(t, v, x as i32);
        lemma_squash_range(x as i32);
        if x > -2047 {
            lemma_squash_mono((x - 1) as i32, x as i32);
        }
        assert(stretch_built_below(t2, x + 1)) by {
            assert forall|p: int| 0 <= p < t2.len() implies {
                &&& -2047 <= #[trigger] t2[p] < x + 1
                &&& spec_squash(t2[p]) >= p
                &&& forall|z: i32| -2047 <= z < t2[p] ==> #[trigger] spec_squash(z) < p
            } by {
                if p >= t.len() {
                    assert(t2[p] == x);
                    assert forall|z: i32| -2047 <= z < t2[p] implies #[trigger] spec_squash(z) < p by {
                        lemma_squash_mono(z, (x - 1) as i32);
                    }
                } else {
                    assert(t2[p] == t[p]);
                }
            }
        }
        lemma_stretch_build_least(t2, x + 1);
    }
}

/// The stretch table inverts [`spec_squash`]: for every probability `p`
/// that squash reaches, entry `p` is the least argument whose squash is at
/// least `p`; the entries above the largest such probability are `2047`.
pub proof fn lemma_stretch_least(p: int)
    requires
        0 <= p < 4096,
    ensures
        p <= spec_squash(2047) ==> {
            &&& -2047 <= stretch_table()[p] <= 2047
            &&& spec_squash(stretch_table()[p]) >= p
            &&& forall|z: i32| -2047 <= z < stretch_table()[p] ==> #[trigger] spec_squash(z) < p
        },
        p > spec_squash(2047) ==> stretch_table()[p] == 2047,
{
    let t = stretch_build(Seq::empty(), -2047);
    lemma_stretch_build_least(Seq::empty(), -2047);
    lemma_stretch_table();
    if p <= spec_squash(2047) {
        assert(stretch_table()[p] == t[p]);
    } else {
        assert(stretch_table()[p] == 2047);
    }
}

/// Squashing what the stretch table gives for a squashed value returns
/// that value: squash and stretch are inverse on the probabilities that
/// squash reaches.
pub proof fn lemma_squash_stretch_squash(x: i32)
    requires
        -2047 <= x <= 2047,
    ensures
        spec_squash(stretch_table()[spec_squash(x) as int]) == spec_squash(x),
{
    let p = spec_squash(x) as int;
    lemma_squash_range(x);
    lemma_squash_mono(x, 2047);
    lemma_stretch_least(p);
    let s = stretch_table()[p];
    if x < s {
        assert(spec_squash(x) < p);
    }
    lemma_squash_mono(s, x);
}

/// Computes [`stretch_table`].
pub fn build_stretch_table() -> (t: Vec<i32>)
    ensures
        t@ == stretch_table(),
{
    let mut t: Vec<i32> = Vec::new();
    let mut x: i32 = -2047;
    while x <= 2047
        invariant
            -2047 <= x <= 2048,
            t@.len() <= 4096,
            in_stretch_range(t@),
            stretch_build(t@, x as int) == stretch_build(Seq::empty(), -2047),
        decreases 2048 - x,
    {
        let v = squash(x);
        let ghost t0 = t@;
        while t.len() <= v as usize
            invariant
                0 <= v <= 4095,
                t0.len() <= t@.len(),
                t@.len() <= 4096,
                t0.len() <= v + 1 ==> t@.len() <= v + 1,
                t0.len() > v ==> t@ == t0,
                t@ == t0 + Seq::new((t@.len() - t0.len()) as nat, |_i: int| x),
            decreases 4096 - t@.len(),
        {
            t.push(x);
            assert(t@ =~= t0 + Seq::new((t@.len() - t0.len()) as nat, |_i: int| x));
        }
        assert(t@ =~= extend_to(t0, v as int, x));
        assert(in_stretch_range(t@)) by {
            assert forall|i: int| 0 <= i < t@.len() implies -2047 <= #[trigger] t@[i] <= 2047 by {
                if i >= t0.len() {
                    assert(t@[i] == x);
                }
            }
        }
        x += 1;
    }
    let ghost built = t@;
    assert(built == stretch_build(Seq::empty(), -2047));
    while t.len() < 4096
        invariant
            built.len() <= t@.len() <= 4096,
            t@ == built + Seq::new((t@.len() - built.len()) as nat, |_i: int| 2047i32),
        decreases 4096 - t@.len(),
    {
        t.push(2047);
        assert(t@ =~= built + Seq::new((t@.len() - built.len()) as nat, |_i: int| 2047i32));
    }
    t
}

/// The FNV-1a offset basis.
pub const FNV_OFFSET: u64 = 0xcbf2_9ce4_8422_2325;

/// The FNV-1a prime.
pub const FNV_PRIME: u64 = 0x0000_0001_0000_01b3;

/// The FNV-1a hash of a byte sequence.
pub open spec fn spec_hash(bytes: Seq<u8>) -> u64
    decreases bytes.len(),
{
    if bytes.len() == 0 {
        FNV_OFFSET
    } else {
        (spec_hash(bytes.drop_last()) ^ (bytes.last() as u64)).wrapping_mul(FNV_PRIME)
    }
}

/// FNV-1a style hash over a byte slice.
pub fn hash_slice(bytes: &[u8]) -> (h: u64)
    ensures
        h == spec_hash(bytes@),
{
    let mut h: u64 = FNV_OFFSET;
    let mut i: usize = 0;
    while i < bytes.len()
        invariant
            0 <= i <= bytes@.len(),
            h == spec_hash(bytes@.subrange(0, i as int)),
        decreases bytes@.len() - i,
    {
        assert(bytes@.subrange(0, i + 1).drop_last() =~= bytes@.subrange(0, i as int));
        h ^= bytes[i] as u64;
        h = h.wrapping_mul(FNV_PRIME);
        i += 1;
    }
    assert(bytes@.subrange(0, bytes@.len() as int) =~= bytes@);
    h
}

/// The table slot of a context hash and a bit-tree node.
pub open spec fn spec_table_index(ctx_hash: u64, node: usize, mask: usize) -> usize {
    let h = ctx_hash.wrapping_mul(0x9E37_79B9_7F4A_7C15) ^ (node as u64).wrapping_mul(
        0xFF51_AFD7_ED55_8CCD,
    );
    ((h ^ (h >> 29u64)) as usize) & mask
}

/// Maps a context hash and the position in the current byte's bit tree to
/// a slot of a table of `mask + 1` counters.
pub fn table_index(ctx_hash: u64, node: usize, mask: usize) -> (r: usize)
    ensures
        r == spec_table_index(ctx_hash, node, mask),
        r <= mask,
{
    let h = ctx_hash.wrapping_mul(0x9E37_79B9_7F4A_7C15) ^ (node as u64).wrapping_mul(
        0xFF51_AFD7_ED55_8CCD,
    );
    let v = (h ^ (h >> 29)) as usize;
    assert(v & mask <= mask) by (bit_vector);
    v & mask
}

/// The number of significant bits of `n`.
pub open spec fn bit_length(n: nat) -> nat
    decreases n,
{
    if n == 0 {
        0
    } else {
        1 + bit_length(n / 2)
    }
}

/// What the match model predicts for the next bit, given the bit-tree node
/// (a leading `1` followed by the bits of the current byte coded so far)
/// and the predicted byte: the byte's next bit when its leading bits agree
/// with the bits coded so far, else nothing.
pub open spec fn spec_match_bit(node: usize, predicted_byte: u8) -> Option<u8> {
    let bl = bit_length(node as nat);
    if bl == 0 || bl > 8 {
        None
    } else {
        let k = (bl - 1) as usize;
        let actual_prefix = node & (((1usize << k) - 1) as usize);
        let predicted_prefix = (predicted_byte as usize) >> ((8 - k) as usize);
        if actual_prefix == predicted_prefix {
            Some((predicted_byte >> ((7 - k) as u8)) & 1)
        } else {
            None
        }
    }
}

proof fn lemma_bit_length_bound(n: nat, k: nat, bound: nat)
    requires
        n < bound,
        bound == vstd::arithmetic::power2::pow2(k),
    ensures
        bit_length(n) <= k,
    decreases k,
{
    if n > 0 {
        if k == 0 {
            vstd::arithmetic::power2::lemma2_to64();
        } else {
            vstd::arithmetic::power2::lemma_pow2_unfold(k);
            lemma_bit_length_bound(n / 2, (k - 1) as nat, vstd::arithmetic::power2::pow2((k - 1) as nat));
        }
    }
}

proof fn lemma_bit_length_small(n: nat)
    requires
        n < 256,
    ensures
        bit_length(n) <= 8,
        n > 0 ==> bit_length(n) >= 1,
{
    vstd::arithmetic::power2::lemma2_to64();
    lemma_bit_length_bound(n, 8, 256);
}

proof fn lemma_bit_length_big(n: nat)
    requires
        n >= 256,
    ensures
        bit_length(n) > 8,
    decreases n,
{
    if n / 2 >= 256 {
        lemma_bit_length_big(n / 2);
    } else {
        assert(n / 2 >= 128);
        assert(bit_length(n / 2) >= 8) by {
            reveal_with_fuel(bit_length, 9);
        }
    }
}

/// The match model's prediction for the next bit; see [`spec_match_bit`].
pub fn match_bit_prediction(node: usize, predicted_byte: u8) -> (r: Option<u8>)
    ensures
        r == spec_match_bit(node, predicted_byte),
{
    if node == 0 || node >= 256 {
        proof {
            if node >= 256 {
                lemma_bit_length_big(node as nat);
            }
        }
        return None;
    }
    proof {
        lemma_bit_length_small(node as nat);
    }
    let mut m: usize = node;
    let mut bl: usize = 0;
    while m > 0
        invariant
            bit_length(node as nat) == bl + bit_length(m as nat),
            m < 256,
            bl <= 8,
            bl + bit_length(m as nat) <= 8,
        decreases m,
    {
        proof {
            lemma_bit_length_small(m as nat);
            lemma_bit_length_small((m / 2) as nat);
        }
        m = m / 2;
        bl += 1;
    }
    proof {
        lemma_bit_length_small(node as nat);
    }
    let k = bl - 1;
    assert((1usize << k) >= 1) by (bit_vector)
        requires k < 8;
    let actual_prefix = node & ((1usize << k) - 1);
    let predicted_prefix = (predicted_byte as usize) >> (8 - k);
    if actual_prefix == predicted_prefix {
        Some((predicted_byte >> ((7 - k) as u8)) & 1)
    } else {
        None
    }
}

/// The largest value `>>` of a bounded `i32` can reach, by sign.
proof fn lemma_shr_bounds(d: i32, r: u32)
    requires
        0 <= r < 32,
    ensures
        d >= 0 ==> 0 <= (d >> r) <= d,
        d < 0 ==> d <= (d >> r) < 0,
{
    assert(d >= 0 ==> 0 <= (d >> r) <= d) by (bit_vector)
        requires 0 <= r < 32;
    assert(d < 0 ==> d <= (d >> r) < 0) by (bit_vector)
        requires 0 <= r < 32;
}

/// `v` limited to `lo..=hi`.
pub open spec fn clamp_int(v: int, lo: int, hi: int) -> int {
    if v < lo {
        lo
    } else if v > hi {
        hi
    } else {
        v
    }
}

// ---------------------------------------------------------------------------
// The match model.
// ---------------------------------------------------------------------------

/// The state of the match model.
pub struct MatchState {
    /// For each hash of the last `min_len` bytes, the history length at
    /// which that context last ended.
    pub table: Seq<u32>,
    pub mask: usize,
    pub min_len: usize,
    /// Position in the history of the byte the model predicts next.
    pub ptr: usize,
    /// Length of the current match, `0` when there is none.
    pub len: u32,
}

/// The table slot for the last `min_len` bytes of `history`.
pub open spec fn match_slot(m: MatchState, history: Seq<u8>) -> usize {
    let n = history.len();
    (spec_hash(history.subrange(n - m.min_len, n as int)) as usize) & m.mask
}

/// At the start of a byte, look up a new match when there is none.
pub open spec fn mm_start(m: MatchState, history: Seq<u8>) -> MatchState {
    let n = history.len();
    if m.len == 0 && n >= m.min_len {
        let cand = m.table[match_slot(m, history) as int];
        if cand > 0 && (cand as usize) < n {
            MatchState { ptr: cand as usize, len: m.min_len as u32, ..m }
        } else {
            m
        }
    } else {
        m
    }
}

/// The byte the match model predicts next, if any.
pub open spec fn mm_predicted(m: MatchState, history: Seq<u8>) -> Option<u8> {
    if m.len > 0 && m.ptr < history.len() {
        Some(history[m.ptr as int])
    } else {
        None
    }
}

/// The model's confidence: the match length, capped at 28.
pub open spec fn mm_confidence(m: MatchState) -> u32 {
    if m.len < 28 {
        m.len
    } else {
        28
    }
}

/// At the end of a byte (already appended to `history`): extend or drop
/// the match, and record where the current context ends.
pub open spec fn mm_end(m: MatchState, history: Seq<u8>, predicted: Option<u8>, actual: u8) -> MatchState {
    let m1 = match predicted {
        Some(p) => if p == actual {
            let l = if m.len == u32::MAX { u32::MAX } else { (m.len + 1) as u32 };
            MatchState { len: if l < 0x10_0000 { l } else { 0x10_0000 }, ptr: (m.ptr + 1) as usize, ..m }
        } else {
            MatchState { len: 0, ..m }
        },
        None => MatchState { len: 0, ..m },
    };
    let n = history.len();
    if n >= m1.min_len {
        MatchState { table: m1.table.update(match_slot(m1, history) as int, n as u32), ..m1 }
    } else {
        m1
    }
}

/// LZP-style match model: remembers where each context of `min_len` bytes
/// last occurred and predicts that the byte which followed it repeats.
pub struct MatchModel {
    table: Vec<u32>,
    mask: usize,
    min_len: usize,
    ptr: usize,
    len: u32,
}

impl View for MatchModel {
    type V = MatchState;

    closed spec fn view(&self) -> MatchState {
        MatchState {
            table: self.table@,
            mask: self.mask,
            min_len: self.min_len,
            ptr: self.ptr,
            len: self.len,
        }
    }
}

/// The match-model state a fresh model starts in.
pub open spec fn mm_initial(hash_bits: u32, min_len: usize) -> MatchState {
    let size = vstd::arithmetic::power2::pow2(hash_bits as nat);
    MatchState {
        table: Seq::new(size, |_i: int| 0u32),
        mask: (size - 1) as usize,
        min_len,
        ptr: 0,
        len: 0,
    }
}

/// The match model's table has `mask + 1` entries.
pub open spec fn mm_wf(m: MatchState) -> bool {
    &&& m.table.len() == m.mask + 1
    &&& m.len <= 0x10_0000
    &&& m.min_len <= 64
}

impl MatchModel {
    fn new(hash_bits: u32, min_len: usize) -> (m: Self)
        requires
            hash_bits <= 22,
            min_len <= 64,
        ensures
            m@ == mm_initial(hash_bits, min_len),
            mm_wf(m@),
    {
        let size = crate::levels::table_size(hash_bits);
        proof {
            vstd::arithmetic::power2::lemma_pow2_pos(hash_bits as nat);
        }
        let table = vec![0u32; size];
        assert(table@ =~= Seq::new(size as nat, |_i: int| 0u32));
        MatchModel { table, mask: size - 1, min_len, ptr: 0, len: 0 }
    }

    fn start_byte(&mut self, history: &Vec<u8>)
        requires
            mm_wf(old(self)@),
        ensures
            final(self)@ == mm_start(old(self)@, history@),
            mm_wf(final(self)@),
    {
        let n = history.len();
        if self.len == 0 && n >= self.min_len {
            let ctx = slice_subrange(history.as_slice(), n - self.min_len, n);
            let v = hash_slice(ctx) as usize;
            let mask = self.mask;
            let h = v & mask;
            assert(v & mask <= mask) by (bit_vector);
            let cand = self.table[h];
            if cand > 0 {
                let p = cand as usize;
                if p < n {
                    self.ptr = p;
                    self.len = self.min_len as u32;
                }
            }
        }
    }

    fn predicted(&self, history: &Vec<u8>) -> (r: Option<u8>)
        ensures
            r == mm_predicted(self@, history@),
    {
        if self.len > 0 && self.ptr < history.len() {
            Some(history[self.ptr])
        } else {
            None
        }
    }

    fn confidence(&self) -> (r: u32)
        ensures
            r == mm_confidence(self@),
    {
        if self.len < 28 {
            self.len
        } else {
            28
        }
    }

    fn end_byte(&mut self, history: &Vec<u8>, predicted: Option<u8>, actual: u8)
        requires
            mm_wf(old(self)@),
            old(self).ptr < history@.len(),
        ensures
            final(self)@ == mm_end(old(self)@, history@, predicted, actual),
            mm_wf(final(self)@),
            final(self).ptr <= history@.len(),
    {
        let n = history.len();
        match predicted {
            Some(p) => {
                if p == actual {
                    let l = self.len.saturating_add(1);
                    self.len = if l < 0x10_0000 { l } else { 0x10_0000 };
                    self.ptr += 1;
                } else {
                    self.len = 0;
                }
            },
            None => {
                self.len = 0;
            },
        }
        if n >= self.min_len {
            let ctx = slice_subrange(history.as_slice(), n - self.min_len, n);
            let v = hash_slice(ctx) as usize;
            let mask = self.mask;
            let h = v & mask;
            assert(v & mask <= mask) by (bit_vector);
            self.table.set(h, n as u32);
        }
    }
}

// ---------------------------------------------------------------------------
// Adaptive probability maps (SSE).
// ---------------------------------------------------------------------------

/// Number of interpolation points per APM context.
pub const APM_POINTS: usize = 33;

/// The initial value of interpolation point `i`: the probability at
/// `(i - 16) / 2` in the logistic domain, as a 16-bit value.
pub open spec fn apm_point(i: int) -> u16 {
    let p = spec_squash(clamp_int((i - 16) * 128, -2048, 2048) as i32);
    clamp_int(p * 16, 0, 65535) as u16
}

/// The initial table of an APM with `n_ctx` contexts.
pub open spec fn apm_initial(n_ctx: nat) -> Seq<u16> {
    Seq::new(n_ctx * 33, |j: int| apm_point(j % 33))
}

/// The refined probability, and the two table slots it interpolates
/// between, for probability `p` in context `ctx`.
pub open spec fn spec_refine(t: Seq<u16>, p: i32, ctx: usize) -> (i32, usize, usize) {
    let s = stretch_table()[p as int];
    let pos = s + 2048;
    let lo = pos / 128;
    let w = pos % 128;
    let base = ctx * 33;
    let plo = t[base + lo] as int;
    let phi = t[base + lo + 1] as int;
    ((((plo * (128 - w) + phi * w) / 128) / 16) as i32, (base + lo) as usize, (base + lo + 1) as usize)
}

/// One adaptation step of an APM entry towards `target`.
pub open spec fn apm_adapt(a: u16, target: i32) -> u16 {
    clamp_int(a + ((target - a) as i32 >> 6u32), 0, 65535) as u16
}

/// The table after adapting slots `lo` and `hi` towards `bit`.
pub open spec fn spec_apm_update(t: Seq<u16>, lo: usize, hi: usize, bit: u8) -> Seq<u16> {
    let target = (bit * 65535) as i32;
    let t1 = t.update(lo as int, apm_adapt(t[lo as int], target));
    t1.update(hi as int, apm_adapt(t1[hi as int], target))
}

/// Adaptive Probability Map (Secondary Symbol Estimation): refines a
/// probability using a small context by interpolating between 33
/// adaptively trained points spanning the logistic range.
pub struct Apm {
    table: Vec<u16>,
}

impl View for Apm {
    type V = Seq<u16>;

    closed spec fn view(&self) -> Seq<u16> {
        self.table@
    }
}

impl Apm {
    fn new(n_ctx: usize) -> (a: Self)
        requires
            n_ctx <= 256,
        ensures
            a@ == apm_initial(n_ctx as nat),
    {
        let mut row: Vec<u16> = Vec::new();
        let mut i: usize = 0;
        while i < APM_POINTS
            invariant
                i <= 33,
                row@ == Seq::new(i as nat, |j: int| apm_point(j)),
            decreases 33 - i,
        {
            let x: i32 = (i as i32 - 16) * 128;
            let p = squash(x);
            let v: u16 = if p * 16 > 65535 { 65535 } else { (p * 16) as u16 };
            row.push(v);
            assert(row@ =~= Seq::new((i + 1) as nat, |j: int| apm_point(j)));
            i += 1;
        }
        let mut table: Vec<u16> = Vec::new();
        let mut c: usize = 0;
        while c < n_ctx
            invariant
                c <= n_ctx <= 256,
                row@ == Seq::new(33, |j: int| apm_point(j)),
                table@ == Seq::new((c * 33) as nat, |j: int| apm_point(j % 33)),
            decreases n_ctx - c,
        {
            let mut k: usize = 0;
            while k < APM_POINTS
                invariant
                    c < n_ctx <= 256,
                    k <= 33,
                    row@ == Seq::new(33, |j: int| apm_point(j)),
                    table@ == Seq::new((c * 33 + k) as nat, |j: int| apm_point(j % 33)),
                decreases 33 - k,
            {
                table.push(row[k]);
                proof {
                    assert((c * 33 + k) % 33 == k as int) by (nonlinear_arith)
                        requires k < 33;
                }
                assert(table@ =~= Seq::new((c * 33 + k + 1) as nat, |j: int| apm_point(j % 33)));
                k += 1;
            }
            c += 1;
        }
        Apm { table }
    }

    fn refine(&self, stretch: &Vec<i32>, p: i32, ctx: usize) -> (r: (i32, usize, usize))
        requires
            stretch@ == stretch_table(),
            0 <= p <= 4095,
            ctx < 256,
            self@.len() == 256 * 33,
        ensures
            r == spec_refine(self@, p, ctx),
            0 <= r.0 <= 4095,
            r.1 < 256 * 33,
            r.2 < 256 * 33,
    {
        proof {
            lemma_stretch_table();
        }
        let s = stretch[p as usize];
        let pos = s + 2048;
        let lo = (pos / 128) as usize;
        let w = pos % 128;
        let base = ctx * APM_POINTS;
        let plo = self.table[base + lo] as i32;
        let phi = self.table[base + lo + 1] as i32;
        assert(0 <= plo * (128 - w) + phi * w <= 65535 * 128) by (nonlinear_arith)
            requires 0 <= plo <= 65535, 0 <= phi <= 65535, 0 <= w < 128;
        (((plo * (128 - w) + phi * w) / 128) / 16, base + lo, base + lo + 1)
    }

    fn update(&mut self, lo: usize, hi: usize, bit: u8)
        requires
            lo < old(self)@.len(),
            hi < old(self)@.len(),
        ensures
            final(self)@ == spec_apm_update(old(self)@, lo, hi, bit),
    {
        let target = (bit as i32) * 65535;
        let a = self.table[lo] as i32;
        proof {
            lemma_shr_bounds((target - a) as i32, 6);
        }
        let na = a + ((target - a) >> 6u32);
        let va: u16 = if na < 0 { 0 } else if na > 65535 { 65535 } else { na as u16 };
        self.table.set(lo, va);
        let b = self.table[hi] as i32;
        proof {
            lemma_shr_bounds((target - b) as i32, 6);
        }
        let nb = b + ((target - b) >> 6u32);
        let vb: u16 = if nb < 0 { 0 } else if nb > 65535 { 65535 } else { nb as u16 };
        self.table.set(hi, vb);
    }
}

// ---------------------------------------------------------------------------
// The predictor.
// ---------------------------------------------------------------------------

/// Scale of the match model's input per unit of confidence (0.4 in the
/// logistic domain, in units of 1/256).
pub const MATCH_SCALE: i32 = 102;

/// The mixer's bias input (1.0 in the logistic domain).
pub const BIAS_INPUT: i32 = 256;

/// The initial mixer weight (0.2, in units of 2^-16).
pub const WEIGHT_INIT: i32 = 13107;

/// Mixer weights are kept within `-WEIGHT_LIMIT..=WEIGHT_LIMIT`.
pub const WEIGHT_LIMIT: i32 = 0x100_0000;

/// The full state of a predictor.
pub struct PredictorState {
    /// The (clamped) compression level; it fixes the configuration.
    pub level: u8,
    /// Every byte seen so far.
    pub history: Seq<u8>,
    /// The counters of all context models, one table after the other.
    pub tables: Seq<u16>,
    /// The context hash of each order for the current byte.
    pub ctx_hashes: Seq<u64>,
    /// The mixer weight sets, one after the other.
    pub weights: Seq<i32>,
    pub mm: Option<MatchState>,
    pub apm1: Option<Seq<u16>>,
    pub apm2: Option<Seq<u16>>,
    /// A leading `1` followed by the bits of the current byte coded so far.
    pub node: usize,
    pub predicted_byte: Option<u8>,
    /// What the last prediction used, for the following update.
    pub cur_indices: Seq<usize>,
    pub cur_inputs: Seq<i32>,
    pub cur_mixer_ctx: usize,
    pub cur_mix_p: i32,
    pub cur_apm1_idx: (usize, usize),
    pub cur_apm2_idx: (usize, usize),
}

/// The number of counters per context-model table of a level.
pub open spec fn table_len(level: u8) -> nat {
    pow2(hash_bits_for(level) as nat)
}

/// The number of mixer inputs of a level: one per order, the match model
/// and the bias.
pub open spec fn input_count(level: u8) -> nat {
    orders_for(level).len() + 2
}

/// The state of a fresh predictor for `level`.
pub open spec fn spec_initial(level: u8) -> PredictorState {
    let l = clamp_level(level);
    let no = orders_for(l).len();
    let ni = input_count(l);
    PredictorState {
        level: l,
        history: Seq::empty(),
        tables: Seq::new(no * table_len(l), |_i: int| 32768u16),
        ctx_hashes: Seq::new(no, |_i: int| 0u64),
        weights: Seq::new((mixer_contexts_for(l) * ni) as nat, |_i: int| WEIGHT_INIT),
        mm: if match_model_for(l) {
            Some(mm_initial(match_hash_bits_for(l), match_min_for(l)))
        } else {
            None
        },
        apm1: if apm_stages_for(l) >= 1 { Some(apm_initial(256)) } else { None },
        apm2: if apm_stages_for(l) >= 2 { Some(apm_initial(256)) } else { None },
        node: 1,
        predicted_byte: None,
        cur_indices: Seq::new(no, |_i: int| 0usize),
        cur_inputs: Seq::new(ni, |_i: int| 0i32),
        cur_mixer_ctx: 0,
        cur_mix_p: 2048,
        cur_apm1_idx: (0, 0),
        cur_apm2_idx: (0, 0),
    }
}

/// The context hash of order `order` after `history`.
pub open spec fn ctx_hash_for(history: Seq<u8>, order: usize) -> u64 {
    let n = history.len();
    if order == 0 {
        0
    } else if n >= order {
        spec_hash(history.subrange(n - order, n as int))
    } else {
        spec_hash(history) ^ (order as u64).wrapping_mul(0x9E37_79B9_7F4A_7C15)
    }
}

/// The state after [`Predictor::start_byte`].
pub open spec fn spec_start_byte(s: PredictorState) -> PredictorState {
    let orders = orders_for(s.level);
    let hashes = Seq::new(orders.len(), |i: int| ctx_hash_for(s.history, orders[i]));
    match s.mm {
        Some(m) => {
            let m2 = mm_start(m, s.history);
            PredictorState {
                node: 1,
                ctx_hashes: hashes,
                mm: Some(m2),
                predicted_byte: mm_predicted(m2, s.history),
                ..s
            }
        },
        None => PredictorState { node: 1, ctx_hashes: hashes, predicted_byte: None, ..s },
    }
}

/// The counter slot each order uses for the next bit.
pub open spec fn order_indices(s: PredictorState) -> Seq<usize> {
    let mask = (table_len(s.level) - 1) as usize;
    Seq::new(
        orders_for(s.level).len(),
        |i: int| spec_table_index(s.ctx_hashes[i], s.node, mask),
    )
}

/// The stretched counter of each order at the given slots.
pub open spec fn order_inputs(s: PredictorState, idx: Seq<usize>) -> Seq<i32> {
    Seq::new(
        orders_for(s.level).len(),
        |i: int| stretch_table()[(s.tables[i * table_len(s.level) + idx[i]] / 16) as int],
    )
}

/// The match model's mixer input for the next bit.
pub open spec fn match_input(s: PredictorState) -> i32 {
    match s.mm {
        Some(m) => match s.predicted_byte {
            Some(pb) => match spec_match_bit(s.node, pb) {
                Some(bit) => {
                    let c = mm_confidence(m) as int;
                    if bit == 1 {
                        (c * 102) as i32
                    } else {
                        (-c * 102) as i32
                    }
                },
                None => 0,
            },
            None => 0,
        },
        None => 0,
    }
}

/// The last byte of the history, or 0.
pub open spec fn prev_byte(s: PredictorState) -> usize {
    if s.history.len() > 0 {
        s.history.last() as usize
    } else {
        0
    }
}

/// The weight set the mixer uses for the next bit.
pub open spec fn mixer_ctx(s: PredictorState) -> usize {
    ((prev_byte(s) ^ s.node) % mixer_contexts_for(s.level)) as usize
}

/// The dot product of the first `k` inputs with the weights at `base`.
pub open spec fn spec_dot(w: Seq<i32>, base: int, x: Seq<i32>, k: nat) -> int
    decreases k,
{
    if k == 0 {
        0
    } else {
        spec_dot(w, base, x, (k - 1) as nat) + w[base + k - 1] * x[k - 1]
    }
}

/// The mixer's output in the logistic domain, limited to `-2048..=2048`.
pub open spec fn mix_domain(dot: int) -> i32 {
    clamp_int(((dot as i64) >> 16u64) as int, -2048, 2048) as i32
}

/// The probability [`Predictor::predict`] returns and the state after it.
pub open spec fn spec_predict(s: PredictorState) -> (u32, PredictorState) {
    let l = s.level;
    let ni = input_count(l);
    let idx = order_indices(s);
    let inputs = order_inputs(s, idx).push(match_input(s)).push(BIAS_INPUT);
    let pb = prev_byte(s);
    let ctx = mixer_ctx(s);
    let p0 = spec_squash(mix_domain(spec_dot(s.weights, ctx * ni, inputs, ni)));
    let r1 = match s.apm1 {
        Some(t) => {
            let r = spec_refine(t, p0, pb & 0xFF);
            (((p0 + 3 * r.0) / 4) as i32, (r.1, r.2))
        },
        None => (p0, s.cur_apm1_idx),
    };
    let r2 = match s.apm2 {
        Some(t) => {
            let r = spec_refine(t, r1.0, s.node & 0xFF);
            (((r1.0 + 3 * r.0) / 4) as i32, (r.1, r.2))
        },
        None => (r1.0, s.cur_apm2_idx),
    };
    (
        clamp_int(r2.0 as int, 1, 4095) as u32,
        PredictorState {
            cur_indices: idx,
            cur_inputs: inputs,
            cur_mixer_ctx: ctx,
            cur_mix_p: p0,
            cur_apm1_idx: r1.1,
            cur_apm2_idx: r2.1,
            ..s
        },
    )
}

/// One adaptation step of a context-model counter towards `target`.
pub open spec fn counter_adapt(c: u16, target: i32, rate: i32) -> u16 {
    clamp_int(c + ((target - c) as i32 >> (rate as u32)), 1, 65535) as u16
}

/// The counters after adapting the slots of the first `k` orders.
pub open spec fn update_tables(
    t: Seq<u16>,
    idx: Seq<usize>,
    tlen: int,
    target: i32,
    rate: i32,
    k: nat,
) -> Seq<u16>
    decreases k,
{
    if k == 0 {
        t
    } else {
        let t1 = update_tables(t, idx, tlen, target, rate, (k - 1) as nat);
        let j = (k - 1) * tlen + idx[k - 1];
        t1.update(j, counter_adapt(t1[j], target, rate))
    }
}

/// One gradient step of a mixer weight.
pub open spec fn weight_adapt(w: i32, x: i32, lr: u32, err: i32) -> i32 {
    let prod = (lr * err * x) as i64;
    clamp_int(w + (prod >> 20u64), -WEIGHT_LIMIT as int, WEIGHT_LIMIT as int) as i32
}

/// The weights after adapting the first `k` weights of the set at `base`.
pub open spec fn update_weights(w: Seq<i32>, base: int, x: Seq<i32>, lr: u32, err: i32, k: nat) -> Seq<
    i32,
>
    decreases k,
{
    if k == 0 {
        w
    } else {
        let w1 = update_weights(w, base, x, lr, err, (k - 1) as nat);
        w1.update(base + k - 1, weight_adapt(w1[base + k - 1], x[k - 1], lr, err))
    }
}

/// The state after [`Predictor::update`] with `bit`.
pub open spec fn spec_update(s: PredictorState, bit: u8) -> PredictorState {
    let l = s.level;
    let target = (bit * 65535) as i32;
    let err = (bit * 4096 - s.cur_mix_p) as i32;
    let ni = input_count(l);
    PredictorState {
        tables: update_tables(
            s.tables,
            s.cur_indices,
            table_len(l) as int,
            target,
            update_rate_for(l),
            orders_for(l).len(),
        ),
        weights: update_weights(
            s.weights,
            s.cur_mixer_ctx * ni,
            s.cur_inputs,
            learning_rate_for(l),
            err,
            ni,
        ),
        apm1: match s.apm1 {
            Some(t) => Some(spec_apm_update(t, s.cur_apm1_idx.0, s.cur_apm1_idx.1, bit)),
            None => None,
        },
        apm2: match s.apm2 {
            Some(t) => Some(spec_apm_update(t, s.cur_apm2_idx.0, s.cur_apm2_idx.1, bit)),
            None => None,
        },
        node: (s.node << 1usize) | (bit as usize),
        ..s
    }
}

/// The state after [`Predictor::end_byte`] with `byte`.
pub open spec fn spec_end_byte(s: PredictorState, byte: u8) -> PredictorState {
    let h = s.history.push(byte);
    PredictorState {
        history: h,
        mm: match s.mm {
            Some(m) => Some(mm_end(m, h, s.predicted_byte, byte)),
            None => None,
        },
        ..s
    }
}

/// The BMRC bit predictor for a chosen compression level.
///
/// A `Predictor` is driven one bit at a time:
///
/// ```text
/// predictor.start_byte();
/// for each of the 8 bits (most significant first):
///     p = predictor.predict();      // probability that bit == 1, 1..=4095
///     // encode or decode `bit` with `p`
///     predictor.update(bit);
/// predictor.end_byte(byte_value);
/// ```
///
/// Compressor and decompressor run this same sequence, so the model stays
/// synchronized.
pub struct Predictor {
    cfg: LevelConfig,
    stretch: Vec<i32>,
    table_size: usize,
    n_inputs: usize,
    history: Vec<u8>,
    tables: Vec<u16>,
    ctx_hashes: Vec<u64>,
    weights: Vec<i32>,
    match_model: Option<MatchModel>,
    apm1: Option<Apm>,
    apm2: Option<Apm>,
    node: usize,
    predicted_byte: Option<u8>,
    cur_indices: Vec<usize>,
    cur_inputs: Vec<i32>,
    cur_mixer_ctx: usize,
    cur_mix_p: i32,
    cur_apm1_idx: (usize, usize),
    cur_apm2_idx: (usize, usize),
}

impl View for Predictor {
    type V = PredictorState;

    closed spec fn view(&self) -> PredictorState {
        PredictorState {
            level: self.cfg.level,
            history: self.history@,
            tables: self.tables@,
            ctx_hashes: self.ctx_hashes@,
            weights: self.weights@,
            mm: match self.match_model {
                Some(m) => Some(m@),
                None => None,
            },
            apm1: match self.apm1 {
                Some(a) => Some(a@),
                None => None,
            },
            apm2: match self.apm2 {
                Some(a) => Some(a@),
                None => None,
            },
            node: self.node,
            predicted_byte: self.predicted_byte,
            cur_indices: self.cur_indices@,
            cur_inputs: self.cur_inputs@,
            cur_mixer_ctx: self.cur_mixer_ctx,
            cur_mix_p: self.cur_mix_p,
            cur_apm1_idx: self.cur_apm1_idx,
            cur_apm2_idx: self.cur_apm2_idx,
        }
    }
}

impl Predictor {
    /// The internal invariant: the tables and scratch vectors have the
    /// sizes the level's configuration fixes, and values stay in range.
    pub closed spec fn wf(&self) -> bool {
        let l = self.cfg.level;
        let no = self.cfg.orders@.len();
        &&& 1 <= l <= 10
        &&& is_config_for(self.cfg, l)
        &&& self.stretch@ == stretch_table()
        &&& self.table_size == table_len(l)
        &&& self.n_inputs == no + 2
        &&& self.tables@.len() == no * self.table_size
        &&& self.ctx_hashes@.len() == no
        &&& self.weights@.len() == self.cfg.mixer_contexts * self.n_inputs
        &&& forall|i: int|
            0 <= i < self.weights@.len() ==> -WEIGHT_LIMIT <= #[trigger] self.weights@[i]
                <= WEIGHT_LIMIT
        &&& self.cur_indices@.len() == no
        &&& forall|i: int| 0 <= i < no ==> #[trigger] self.cur_indices@[i] < self.table_size
        &&& self.cur_inputs@.len() == self.n_inputs
        &&& forall|i: int|
            0 <= i < self.n_inputs ==> -4096 <= #[trigger] self.cur_inputs@[i] <= 4096
        &&& self.cur_mixer_ctx < self.cfg.mixer_contexts
        &&& 0 <= self.cur_mix_p <= 4095
        &&& self.match_model.is_some() == self.cfg.match_model
        &&& (self.match_model matches Some(m) ==> {
            &&& mm_wf(m@)
            &&& m@.ptr <= self.history@.len()
        })
        &&& self.apm1.is_some() == (self.cfg.apm_stages >= 1)
        &&& (self.apm1 matches Some(a) ==> a@.len() == 256 * 33)
        &&& self.cur_apm1_idx.0 < 256 * 33
        &&& self.cur_apm1_idx.1 < 256 * 33
        &&& self.apm2.is_some() == (self.cfg.apm_stages >= 2)
        &&& (self.apm2 matches Some(a) ==> a@.len() == 256 * 33)
        &&& self.cur_apm2_idx.0 < 256 * 33
        &&& self.cur_apm2_idx.1 < 256 * 33
    }

    /// Creates a predictor configured for `level` (clamped to `1..=10`).
    pub fn new(level: u8) -> (p: Self)
        ensures
            p@ == spec_initial(level),
            p.wf(),
    {
        let cfg = config_for_level(level);
        let n_orders = cfg.orders.len();
        let table_size = crate::levels::table_size(cfg.hash_bits);
        proof {
            vstd::arithmetic::power2::lemma2_to64();
            vstd::arithmetic::power2::lemma_pow2_pos(cfg.hash_bits as nat);
            if cfg.hash_bits < 22 {
                vstd::arithmetic::power2::lemma_pow2_strictly_increases(cfg.hash_bits as nat, 22);
            }
            assert(n_orders <= 13) by {
                let l = cfg.level;
                if l == 1 {} else if l == 2 {} else if l == 3 {} else if l == 4 {} else if l == 5 {}
                else if l == 6 {} else if l == 7 {} else if l == 8 {} else if l == 9 {} else {}
            }
            assert(n_orders * table_size <= 13 * 0x40_0000) by (nonlinear_arith)
                requires n_orders <= 13, table_size <= 0x40_0000;
            assert(cfg.mixer_contexts * (n_orders + 2) <= 16 * 15) by (nonlinear_arith)
                requires cfg.mixer_contexts <= 16, n_orders <= 13;
        }
        let tables = vec![32768u16; n_orders * table_size];
        let n_inputs = n_orders + 2;
        let weights = vec![WEIGHT_INIT; cfg.mixer_contexts * n_inputs];
        let match_model = if cfg.match_model {
            Some(MatchModel::new(cfg.match_hash_bits, cfg.match_min))
        } else {
            None
        };
        let apm1 = if cfg.apm_stages >= 1 {
            Some(Apm::new(256))
        } else {
            None
        };
        let apm2 = if cfg.apm_stages >= 2 {
            Some(Apm::new(256))
        } else {
            None
        };
        let ctx_hashes = vec![0u64; n_orders];
        let cur_indices = vec![0usize; n_orders];
        let cur_inputs = vec![0i32; n_inputs];
        let stretch = build_stretch_table();
        let p = Predictor {
            cfg,
            stretch,
            table_size,
            n_inputs,
            history: Vec::new(),
            tables,
            ctx_hashes,
            weights,
            match_model,
            apm1,
            apm2,
            node: 1,
            predicted_byte: None,
            cur_indices,
            cur_inputs,
            cur_mixer_ctx: 0,
            cur_mix_p: 2048,
            cur_apm1_idx: (0, 0),
            cur_apm2_idx: (0, 0),
        };
        assert(p@.tables =~= spec_initial(level).tables);
        assert(p@.ctx_hashes =~= spec_initial(level).ctx_hashes);
        assert(p@.weights =~= spec_initial(level).weights);
        assert(p@.cur_indices =~= spec_initial(level).cur_indices);
        assert(p@.cur_inputs =~= spec_initial(level).cur_inputs);
        assert(p@ == spec_initial(level));
        p
    }

    /// Returns the probability that the next bit is `1`, scaled to
    /// `1..=4095`, and records what the following [`Predictor::update`]
    /// needs.
    pub fn predict(&mut self) -> (p: u32)
        requires
            old(self).wf(),
        ensures
            final(self).wf(),
            (p, final(self)@) == spec_predict(old(self)@),
            1 <= p <= 4095,
    {
        let ghost s0 = old(self)@;
        let n_orders = self.cfg.orders.len();
        let ts = self.table_size;
        proof {
            lemma_stretch_table();
            vstd::arithmetic::power2::lemma_pow2_pos(hash_bits_for(s0.level) as nat);
        }
        let mask = ts - 1;
        let tl = self.tables.len();
        assert(n_orders * ts == tl);
        let ghost idx_spec = order_indices(s0);
        let ghost in_spec = order_inputs(s0, idx_spec);
        let mut i: usize = 0;
        while i < n_orders
            invariant
                self.wf(),
                n_orders == self.cfg.orders@.len(),
                ts == self.table_size,
                mask == ts - 1,
                n_orders * ts == tl,
                tl == self.tables@.len(),
                s0.level == self.cfg.level,
                idx_spec == order_indices(s0),
                in_spec == order_inputs(s0, idx_spec),
                self@ == (PredictorState {
                    cur_indices: self@.cur_indices,
                    cur_inputs: self@.cur_inputs,
                    ..s0
                }),
                0 <= i <= n_orders,
                forall|j: int| 0 <= j < i ==> #[trigger] self.cur_indices@[j] == idx_spec[j],
                forall|j: int| 0 <= j < i ==> #[trigger] self.cur_inputs@[j] == in_spec[j],
            decreases n_orders - i,
        {
            let idx = table_index(self.ctx_hashes[i], self.node, mask);
            self.cur_indices.set(i, idx);
            proof {
                assert(i * ts + idx < n_orders * ts) by (nonlinear_arith)
                    requires i < n_orders, idx < ts;
            }
            let t = self.tables[i * ts + idx];
            assert(t >> 4u16 == t / 16) by (bit_vector);
            proof {
                lemma_stretch_table();
            }
            let x = self.stretch[(t >> 4) as usize];
            assert(-2047 <= stretch_table()[(t / 16) as int] <= 2047);
            assert(idx < self.table_size);
            self.cur_inputs.set(i, x);
            i += 1;
        }
        let m_input: i32 = match &self.match_model {
            Some(mm) => match self.predicted_byte {
                Some(pb) => match match_bit_prediction(self.node, pb) {
                    Some(bit) => {
                        let conf = mm.confidence() as i32;
                        if bit == 1 {
                            conf * MATCH_SCALE
                        } else {
                            -conf * MATCH_SCALE
                        }
                    },
                    None => 0,
                },
                None => 0,
            },
            None => 0,
        };
        assert(m_input == match_input(s0));
        self.cur_inputs.set(n_orders, m_input);
        self.cur_inputs.set(n_orders + 1, BIAS_INPUT);
        let ghost inputs = in_spec.push(match_input(s0)).push(BIAS_INPUT);
        assert(self.cur_inputs@ =~= inputs);
        assert(self.cur_indices@ =~= idx_spec);
        let hl = self.history.len();
        let prev_byte: usize = if hl > 0 {
            self.history[hl - 1] as usize
        } else {
            0
        };
        let ctx = (prev_byte ^ self.node) % self.cfg.mixer_contexts;
        self.cur_mixer_ctx = ctx;
        let n_inputs = self.n_inputs;
        let wl = self.weights.len();
        proof {
            let mc = self.cfg.mixer_contexts;
            assert(ctx * n_inputs + n_inputs <= mc * n_inputs) by (nonlinear_arith)
                requires ctx < mc;
        }
        let base = ctx * n_inputs;
        let mut acc: i64 = 0;
        let mut j: usize = 0;
        while j < n_inputs
            invariant
                self.wf(),
                n_inputs == self.n_inputs,
                base + n_inputs <= self.weights@.len(),
                0 <= j <= n_inputs,
                n_inputs <= 15,
                acc == spec_dot(self.weights@, base as int, self.cur_inputs@, j as nat),
                -(j * 0x10_0000_0000) <= acc <= j * 0x10_0000_0000,
            decreases n_inputs - j,
        {
            let w = self.weights[base + j] as i64;
            let x = self.cur_inputs[j] as i64;
            proof {
                assert(-0x10_0000_0000 <= w * x <= 0x10_0000_0000) by (nonlinear_arith)
                    requires -0x100_0000 <= w <= 0x100_0000, -4096 <= x <= 4096;
            }
            acc = acc + w * x;
            j += 1;
        }
        let d64 = acc >> 16u64;
        let d: i32 = if d64 > 2048 {
            2048
        } else if d64 < -2048 {
            -2048
        } else {
            d64 as i32
        };
        let mut p = squash(d);
        self.cur_mix_p = p;
        let ghost p0 = p;
        match &self.apm1 {
            Some(apm) => {
                assert(prev_byte & 0xFF < 256) by (bit_vector);
                let (np, lo, hi) = apm.refine(&self.stretch, p, prev_byte & 0xFF);
                self.cur_apm1_idx = (lo, hi);
                p = (p + 3 * np) / 4;
            },
            None => {},
        }
        match &self.apm2 {
            Some(apm) => {
                let nd = self.node;
                assert(nd & 0xFF < 256) by (bit_vector);
                let (np, lo, hi) = apm.refine(&self.stretch, p, self.node & 0xFF);
                self.cur_apm2_idx = (lo, hi);
                p = (p + 3 * np) / 4;
            },
            None => {},
        }
        let p12: i32 = if p < 1 {
            1
        } else if p > 4095 {
            4095
        } else {
            p
        };
        assert(self@ == spec_predict(s0).1);
        p12 as u32
    }

    /// Updates all models once the value of the bit just predicted is
    /// known.
    pub fn update(&mut self, bit: u8)
        requires
            old(self).wf(),
        ensures
            final(self).wf(),
            final(self)@ == spec_update(old(self)@, bit),
    {
        let ghost s0 = old(self)@;
        let target16: i32 = (bit as i32) * 65535;
        let rate = self.cfg.update_rate;
        let n_orders = self.cfg.orders.len();
        let ts = self.table_size;
        let tl = self.tables.len();
        assert(n_orders * ts == tl);
        let mut i: usize = 0;
        while i < n_orders
            invariant
                self.wf(),
                n_orders == self.cfg.orders@.len(),
                ts == self.table_size,
                n_orders * ts == tl,
                tl == self.tables@.len(),
                s0.level == self.cfg.level,
                3 <= rate <= 5,
                rate == update_rate_for(s0.level),
                0 <= target16 <= 255 * 65535,
                target16 == (bit * 65535) as i32,
                self@ == (PredictorState { tables: self@.tables, ..s0 }),
                0 <= i <= n_orders,
                self.tables@ == update_tables(s0.tables, s0.cur_indices, ts as int, target16, rate, i as nat),
            decreases n_orders - i,
        {
            let idx = self.cur_indices[i];
            proof {
                assert(i * ts + idx < n_orders * ts) by (nonlinear_arith)
                    requires i < n_orders, idx < ts;
            }
            let j = i * ts + idx;
            let cur = self.tables[j] as i32;
            proof {
                lemma_shr_bounds((target16 - cur) as i32, rate as u32);
            }
            let updated = cur + ((target16 - cur) >> (rate as u32));
            let v: u16 = if updated < 1 {
                1
            } else if updated > 65535 {
                65535
            } else {
                updated as u16
            };
            self.tables.set(j, v);
            i += 1;
        }
        let error: i32 = (bit as i32) * 4096 - self.cur_mix_p;
        let lr = self.cfg.learning_rate as i64;
        let n_inputs = self.n_inputs;
        let ctx = self.cur_mixer_ctx;
        let wl = self.weights.len();
        proof {
            let mc = self.cfg.mixer_contexts;
            assert(ctx * n_inputs + n_inputs <= mc * n_inputs) by (nonlinear_arith)
                requires ctx < mc;
        }
        let base = ctx * n_inputs;
        let ghost s1 = self@;
        let mut k: usize = 0;
        while k < n_inputs
            invariant
                self.wf(),
                n_inputs == self.n_inputs,
                base + n_inputs <= self.weights@.len(),
                base == s0.cur_mixer_ctx * n_inputs,
                s0.level == self.cfg.level,
                lr == learning_rate_for(s0.level),
                0 <= lr <= 229,
                -4095 <= error <= 255 * 4096,
                error == (bit * 4096 - s0.cur_mix_p) as i32,
                self@ == (PredictorState { weights: self@.weights, ..s1 }),
                s1.cur_inputs == s0.cur_inputs,
                0 <= k <= n_inputs,
                self.weights@ == update_weights(s0.weights, base as int, s0.cur_inputs, learning_rate_for(s0.level), error, k as nat),
            decreases n_inputs - k,
        {
            let w = self.weights[base + k] as i64;
            let x = self.cur_inputs[k] as i64;
            proof {
                assert(-0x1000_0000 <= lr * error <= 0x1000_0000) by (nonlinear_arith)
                    requires 0 <= lr <= 229, -4095 <= error <= 255 * 4096;
                assert(-0x100_0000_0000 <= lr * error * x <= 0x100_0000_0000) by (nonlinear_arith)
                    requires -0x1000_0000 <= lr * error <= 0x1000_0000, -4096 <= x <= 4096;
            }
            let prod: i64 = lr * (error as i64) * x;
            assert(prod >> 20u64 <= prod / 0x10_0000 + 1 && prod >> 20u64 >= prod / 0x10_0000 - 1)
                by (bit_vector);
            let nw64 = w + (prod >> 20u64);
            let nw: i32 = if nw64 < -(WEIGHT_LIMIT as i64) {
                -WEIGHT_LIMIT
            } else if nw64 > WEIGHT_LIMIT as i64 {
                WEIGHT_LIMIT
            } else {
                nw64 as i32
            };
            self.weights.set(base + k, nw);
            k += 1;
        }
        match &mut self.apm1 {
            Some(apm) => {
                apm.update(self.cur_apm1_idx.0, self.cur_apm1_idx.1, bit);
            },
            None => {},
        }
        match &mut self.apm2 {
            Some(apm) => {
                apm.update(self.cur_apm2_idx.0, self.cur_apm2_idx.1, bit);
            },
            None => {},
        }
        self.node = (self.node << 1) | (bit as usize);
        assert(self@ == spec_update(s0, bit));
    }

    /// Finishes a byte: appends it to the history and updates the match
    /// model.
    pub fn end_byte(&mut self, byte: u8)
        requires
            old(self).wf(),
        ensures
            final(self).wf(),
            final(self)@ == spec_end_byte(old(self)@, byte),
    {
        let predicted = self.predicted_byte;
        self.history.push(byte);
        match &mut self.match_model {
            Some(mm) => {
                mm.end_byte(&self.history, predicted, byte);
            },
            None => {},
        }
    }

    /// Prepares the predictor for the bits of the next byte: computes each
    /// order's context hash and the match model's predicted byte.
    pub fn start_byte(&mut self)
        requires
            old(self).wf(),
        ensures
            final(self).wf(),
            final(self)@ == spec_start_byte(old(self)@),
    {
        self.node = 1;
        let n = self.history.len();
        let n_orders = self.cfg.orders.len();
        let ghost s0 = old(self)@;
        let mut i: usize = 0;
        while i < n_orders
            invariant
                self.wf(),
                n == self.history@.len(),
                n_orders == self.cfg.orders@.len(),
                self.history@ == s0.history,
                self.cfg.orders@ == orders_for(s0.level),
                self@ == (PredictorState { ctx_hashes: self@.ctx_hashes, node: 1, ..s0 }),
                0 <= i <= n_orders,
                forall|j: int|
                    0 <= j < i ==> #[trigger] self.ctx_hashes@[j] == ctx_hash_for(
                        s0.history,
                        self.cfg.orders@[j],
                    ),
            decreases n_orders - i,
        {
            let order = self.cfg.orders[i];
            let h: u64 = if order == 0 {
                0
            } else if n >= order {
                hash_slice(slice_subrange(self.history.as_slice(), n - order, n))
            } else {
                assert(self.history@.subrange(0, n as int) =~= self.history@);
                hash_slice(self.history.as_slice()) ^ (order as u64).wrapping_mul(0x9E37_79B9_7F4A_7C15)
            };
            self.ctx_hashes.set(i, h);
            i += 1;
        }
        assert(self.ctx_hashes@ =~= spec_start_byte(s0).ctx_hashes);
        match &mut self.match_model {
            Some(mm) => {
                mm.start_byte(&self.history);
                self.predicted_byte = mm.predicted(&self.history);
            },
            None => {
                self.predicted_byte = None;
            },
        }
    }
}

} // verus!
