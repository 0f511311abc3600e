//! The entropy-coded payload: the predictor and the range coder run in
//! lock-step, one bit at a time, most significant bit first.

use vstd::prelude::*;
use crate::predictor::{
    Predictor, PredictorState, spec_initial, spec_start_byte, spec_predict, spec_update,
    spec_end_byte,
};
use crate::range_coder::{
    Encoder, Decoder, CoderState, DecState, initial_coder, initial_decoder, encode_step,
    finish_bytes, dec_bit, dec_next, tracks, consistent, coder_wf, valid_prob, valid_bit,
    lemma_encode_step_wf, lemma_encode_step_back, lemma_decode_step, lemma_finish_consistent,
    lemma_initial_tracks,
};

verus! {

/// Bit `k` of `byte`, counting from the most significant (`k` in `0..8`).
pub open spec fn byte_bit(byte: u8, k: nat) -> u8 {
    (byte >> ((7 - k) as u8)) & 1
}

/// Codes bits `k..8` of `byte` from model state `m` and encoder state `e`.
pub open spec fn enc_byte_bits(m: PredictorState, e: CoderState, byte: u8, k: nat) -> (
    PredictorState,
    CoderState,
)
    decreases 8 - k,
{
    if k >= 8 {
        (m, e)
    } else {
        let bit = byte_bit(byte, k);
        let pm = spec_predict(m);
        enc_byte_bits(spec_update(pm.1, bit), encode_step(e, bit, pm.0), byte, k + 1)
    }
}

/// Codes one byte.
pub open spec fn enc_byte(m: PredictorState, e: CoderState, byte: u8) -> (PredictorState, CoderState) {
    let r = enc_byte_bits(spec_start_byte(m), e, byte, 0);
    (spec_end_byte(r.0, byte), r.1)
}

/// Codes every byte of `data`.
pub open spec fn enc_bytes(m: PredictorState, e: CoderState, data: Seq<u8>) -> (
    PredictorState,
    CoderState,
)
    decreases data.len(),
{
    if data.len() == 0 {
        (m, e)
    } else {
        let r = enc_byte(m, e, data[0]);
        enc_bytes(r.0, r.1, data.drop_first())
    }
}

/// The payload that codes `data` at `level`.
pub open spec fn spec_encode_payload(data: Seq<u8>, level: u8) -> Seq<u8> {
    finish_bytes(enc_bytes(spec_initial(level), initial_coder(), data).1)
}

/// Decodes bits `k..8` of a byte, `acc` holding the bits decoded so far.
pub open spec fn dec_byte_bits(m: PredictorState, d: DecState, input: Seq<u8>, acc: u8, k: nat) -> (
    PredictorState,
    DecState,
    u8,
)
    decreases 8 - k,
{
    if k >= 8 {
        (m, d, acc)
    } else {
        let pm = spec_predict(m);
        let bit = dec_bit(d, pm.0);
        dec_byte_bits(spec_update(pm.1, bit), dec_next(d, input, pm.0), input, (acc << 1u8) | bit, k + 1)
    }
}

/// Decodes one byte.
pub open spec fn dec_byte(m: PredictorState, d: DecState, input: Seq<u8>) -> (
    PredictorState,
    DecState,
    u8,
) {
    let r = dec_byte_bits(spec_start_byte(m), d, input, 0, 0);
    (spec_end_byte(r.0, r.2), r.1, r.2)
}

/// Decodes `n` bytes.
pub open spec fn dec_bytes(m: PredictorState, d: DecState, input: Seq<u8>, n: nat) -> Seq<u8>
    decreases n,
{
    if n == 0 {
        Seq::empty()
    } else {
        let r = dec_byte(m, d, input);
        seq![r.2] + dec_bytes(r.0, r.1, input, (n - 1) as nat)
    }
}

/// The decoder's model state after decoding `n` bytes.
pub open spec fn dec_model(m: PredictorState, d: DecState, input: Seq<u8>, n: nat) -> PredictorState
    decreases n,
{
    if n == 0 {
        m
    } else {
        let r = dec_byte(m, d, input);
        dec_model(r.0, r.1, input, (n - 1) as nat)
    }
}

/// The `n` bytes decoded from `payload` at `level`.
pub open spec fn spec_decode_payload(payload: Seq<u8>, level: u8, n: nat) -> Seq<u8> {
    dec_bytes(spec_initial(level), initial_decoder(payload), payload, n)
}

proof fn lemma_dec_bytes_len(m: PredictorState, d: DecState, input: Seq<u8>, n: nat)
    ensures
        dec_bytes(m, d, input, n).len() == n,
    decreases n,
{
    if n > 0 {
        let r = dec_byte(m, d, input);
        lemma_dec_bytes_len(r.0, r.1, input, (n - 1) as nat);
    }
}

/// Decoding `n` bytes gives `n` bytes.
pub proof fn lemma_decode_payload_len(payload: Seq<u8>, level: u8, n: nat)
    ensures
        spec_decode_payload(payload, level, n).len() == n,
{
    lemma_dec_bytes_len(spec_initial(level), initial_decoder(payload), payload, n);
}

/// Encodes `data` with the predictor and the range coder and returns the
/// bitstream, without container header.
pub fn encode_payload(data: &[u8], level: u8) -> (r: Vec<u8>)
    ensures
        r@ == spec_encode_payload(data@, level),
{
    let mut predictor = Predictor::new(level);
    let mut enc = Encoder::new();
    let ghost m0 = predictor@;
    let ghost e0 = enc@;
    assert(data@.subrange(0, data@.len() as int) =~= data@);
    let mut i: usize = 0;
    while i < data.len()
        invariant
            0 <= i <= data@.len(),
            predictor.wf(),
            enc.wf(),
            enc_bytes(predictor@, enc@, data@.subrange(i as int, data@.len() as int)) == enc_bytes(
                m0,
                e0,
                data@,
            ),
        decreases data@.len() - i,
    {
        let byte = data[i];
        let ghost rest = data@.subrange(i as int, data@.len() as int);
        assert(rest[0] == byte);
        assert(rest.drop_first() =~= data@.subrange(i + 1, data@.len() as int));
        let ghost mstart = predictor@;
        let ghost estart = enc@;
        predictor.start_byte();
        let mut k: u8 = 0;
        while k < 8
            invariant
                0 <= k <= 8,
                predictor.wf(),
                enc.wf(),
                enc_byte_bits(predictor@, enc@, byte, k as nat) == enc_byte_bits(
                    spec_start_byte(mstart),
                    estart,
                    byte,
                    0,
                ),
            decreases 8 - k,
        {
            let bit = (byte >> (7 - k)) & 1;
            let p = predictor.predict();
            enc.encode_bit(bit, p);
            predictor.update(bit);
            k += 1;
        }
        predictor.end_byte(byte);
        i += 1;
    }
    assert(data@.subrange(data@.len() as int, data@.len() as int) =~= Seq::<u8>::empty());
    enc.finish()
}

/// Decodes `orig_len` bytes from `payload`: the inverse of
/// [`encode_payload`]. The output is one allocation of `orig_len` bytes, so
/// `orig_len` is at most `isize::MAX`.
pub fn decode_payload(payload: &[u8], level: u8, orig_len: usize) -> (r: Vec<u8>)
    requires
        orig_len <= isize::MAX,
    ensures
        r@ == spec_decode_payload(payload@, level, orig_len as nat),
        r@.len() == orig_len,
{
    proof {
        lemma_decode_payload_len(payload@, level, orig_len as nat);
    }
    let mut predictor = Predictor::new(level);
    let mut dec = Decoder::new(payload);
    let mut out: Vec<u8> = Vec::new();
    let ghost m0 = predictor@;
    let ghost d0 = dec.state();
    let mut i: usize = 0;
    while i < orig_len
        invariant
            0 <= i <= orig_len,
            predictor.wf(),
            dec.wf(),
            dec.input() == payload@,
            out@ + dec_bytes(predictor@, dec.state(), payload@, (orig_len - i) as nat) == dec_bytes(
                m0,
                d0,
                payload@,
                orig_len as nat,
            ),
        decreases orig_len - i,
    {
        let ghost mstart = predictor@;
        let ghost dstart = dec.state();
        predictor.start_byte();
        let mut byte: u8 = 0;
        let mut k: u8 = 0;
        while k < 8
            invariant
                0 <= k <= 8,
                predictor.wf(),
                dec.wf(),
                dec.input() == payload@,
                dec_byte_bits(predictor@, dec.state(), payload@, byte, k as nat) == dec_byte_bits(
                    spec_start_byte(mstart),
                    dstart,
                    payload@,
                    0,
                    0,
                ),
            decreases 8 - k,
        {
            let p = predictor.predict();
            let bit = dec.decode_bit(p);
            predictor.update(bit);
            byte = (byte << 1) | bit;
            k += 1;
        }
        predictor.end_byte(byte);
        let ghost old_out = out@;
        out.push(byte);
        assert(old_out + dec_bytes(mstart, dstart, payload@, (orig_len - i) as nat) =~= out@
            + dec_bytes(predictor@, dec.state(), payload@, (orig_len - i - 1) as nat));
        i += 1;
    }
    assert(out@ + dec_bytes(predictor@, dec.state(), payload@, 0) =~= out@);
    out
}

// ---------------------------------------------------------------------------
// Decoding the payload gives back the data.
// ---------------------------------------------------------------------------

proof fn lemma_predict_valid(m: PredictorState)
    ensures
        valid_prob(spec_predict(m).0),
{
}

proof fn lemma_byte_bit(byte: u8, acc: u8, k: u8)
    requires
        k < 8,
        acc as u32 == (byte as u32) >> ((8 - k) as u32),
    ensures
        valid_bit((byte >> ((7 - k) as u8)) & 1),
        (((acc << 1u8) | ((byte >> ((7 - k) as u8)) & 1)) as u32) == (byte as u32) >> ((7 - k) as u32),
{
    assert(((byte >> ((7 - k) as u8)) & 1) == 0 || ((byte >> ((7 - k) as u8)) & 1) == 1)
        by (bit_vector);
    assert(k < 8 && acc as u32 == (byte as u32) >> ((8 - k) as u32) ==> (((acc << 1u8) | ((byte
        >> ((7 - k) as u8)) & 1)) as u32) == (byte as u32) >> ((7 - k) as u32)) by (bit_vector);
}

proof fn lemma_enc_byte_bits_back(m: PredictorState, e: CoderState, byte: u8, k: nat, f: Seq<u8>)
    requires
        coder_wf(e),
        consistent(enc_byte_bits(m, e, byte, k).1, f),
    ensures
        consistent(e, f),
        coder_wf(enc_byte_bits(m, e, byte, k).1),
    decreases 8 - k,
{
    if k < 8 {
        let bit = byte_bit(byte, k);
        let pm = spec_predict(m);
        lemma_predict_valid(m);
        lemma_encode_step_wf(e, bit, pm.0);
        lemma_enc_byte_bits_back(spec_update(pm.1, bit), encode_step(e, bit, pm.0), byte, k + 1, f);
        lemma_encode_step_back(e, bit, pm.0, f);
    }
}

proof fn lemma_enc_bytes_back(m: PredictorState, e: CoderState, data: Seq<u8>, f: Seq<u8>)
    requires
        coder_wf(e),
        consistent(enc_bytes(m, e, data).1, f),
    ensures
        consistent(e, f),
        coder_wf(enc_bytes(m, e, data).1),
    decreases data.len(),
{
    if data.len() > 0 {
        let r = enc_byte(m, e, data[0]);
        let rb = enc_byte_bits(spec_start_byte(m), e, data[0], 0);
        lemma_enc_byte_wf(m, e, data[0]);
        lemma_enc_bytes_back(r.0, r.1, data.drop_first(), f);
        lemma_enc_byte_bits_back(spec_start_byte(m), e, data[0], 0, f);
    }
}

proof fn lemma_enc_byte_bits_wf(m: PredictorState, e: CoderState, byte: u8, k: nat)
    requires
        coder_wf(e),
    ensures
        coder_wf(enc_byte_bits(m, e, byte, k).1),
    decreases 8 - k,
{
    if k < 8 {
        let bit = byte_bit(byte, k);
        let pm = spec_predict(m);
        lemma_predict_valid(m);
        lemma_encode_step_wf(e, bit, pm.0);
        lemma_enc_byte_bits_wf(spec_update(pm.1, bit), encode_step(e, bit, pm.0), byte, k + 1);
    }
}

proof fn lemma_enc_byte_wf(m: PredictorState, e: CoderState, byte: u8)
    requires
        coder_wf(e),
    ensures
        coder_wf(enc_byte(m, e, byte).1),
{
    lemma_enc_byte_bits_wf(spec_start_byte(m), e, byte, 0);
}

proof fn lemma_enc_bytes_wf(m: PredictorState, e: CoderState, data: Seq<u8>)
    requires
        coder_wf(e),
    ensures
        coder_wf(enc_bytes(m, e, data).1),
    decreases data.len(),
{
    if data.len() > 0 {
        let r = enc_byte(m, e, data[0]);
        lemma_enc_byte_wf(m, e, data[0]);
        lemma_enc_bytes_wf(r.0, r.1, data.drop_first());
    }
}

proof fn lemma_dec_byte_bits(
    m: PredictorState,
    d: DecState,
    e: CoderState,
    f: Seq<u8>,
    byte: u8,
    acc: u8,
    k: nat,
)
    requires
        k <= 8,
        coder_wf(e),
        tracks(d, e, f),
        consistent(enc_byte_bits(m, e, byte, k).1, f),
        acc as u32 == (byte as u32) >> ((8 - k) as u32),
    ensures
        dec_byte_bits(m, d, f, acc, k).0 == enc_byte_bits(m, e, byte, k).0,
        tracks(dec_byte_bits(m, d, f, acc, k).1, enc_byte_bits(m, e, byte, k).1, f),
        dec_byte_bits(m, d, f, acc, k).2 == byte,
    decreases 8 - k,
{
    if k < 8 {
        let bit = byte_bit(byte, k);
        let pm = spec_predict(m);
        lemma_predict_valid(m);
        lemma_byte_bit(byte, acc, k as u8);
        lemma_encode_step_wf(e, bit, pm.0);
        lemma_enc_byte_bits_back(spec_update(pm.1, bit), encode_step(e, bit, pm.0), byte, k + 1, f);
        lemma_decode_step(d, e, f, bit, pm.0);
        lemma_dec_byte_bits(
            spec_update(pm.1, bit),
            dec_next(d, f, pm.0),
            encode_step(e, bit, pm.0),
            f,
            byte,
            (acc << 1u8) | bit,
            k + 1,
        );
    } else {
        assert((byte as u32) >> 0u32 == byte as u32) by (bit_vector);
    }
}

proof fn lemma_dec_bytes(m: PredictorState, d: DecState, e: CoderState, f: Seq<u8>, data: Seq<u8>)
    requires
        coder_wf(e),
        tracks(d, e, f),
        consistent(enc_bytes(m, e, data).1, f),
    ensures
        dec_bytes(m, d, f, data.len()) == data,
        dec_model(m, d, f, data.len()) == enc_bytes(m, e, data).0,
    decreases data.len(),
{
    if data.len() > 0 {
        let r = enc_byte(m, e, data[0]);
        lemma_enc_byte_wf(m, e, data[0]);
        lemma_enc_bytes_back(r.0, r.1, data.drop_first(), f);
        let b0 = data[0];
        assert((b0 as u32) >> 8u32 == 0u32) by (bit_vector);
        lemma_dec_byte_bits(spec_start_byte(m), d, e, f, data[0], 0, 0);
        let rd = dec_byte(m, d, f);
        lemma_dec_bytes(rd.0, rd.1, r.1, f, data.drop_first());
        assert(dec_bytes(m, d, f, data.len()) =~= data);
    }
}

/// Decoding the payload that codes `data` at `level`, at the same level and
/// for `data.len()` bytes, gives back `data`; bytes `t` after the payload
/// change nothing.
pub proof fn lemma_payload_roundtrip(data: Seq<u8>, level: u8, t: Seq<u8>)
    requires
        spec_encode_payload(data, level).len() + t.len() <= usize::MAX,
    ensures
        spec_decode_payload(spec_encode_payload(data, level) + t, level, data.len()) == data,
{
    let f = spec_encode_payload(data, level) + t;
    let e0 = initial_coder();
    assert(coder_wf(e0));
    lemma_enc_bytes_wf(spec_initial(level), e0, data);
    lemma_finish_consistent(enc_bytes(spec_initial(level), e0, data).1, t);
    lemma_initial_tracks(f);
    lemma_dec_bytes(spec_initial(level), initial_decoder(f), e0, f, data);
}

/// Encoder and decoder run their models in lock-step: after decoding the
/// payload that codes `data`, the decoder's model is in exactly the state
/// the encoder's model reached, whatever bytes `t` follow the payload.
pub proof fn lemma_models_in_lockstep(data: Seq<u8>, level: u8, t: Seq<u8>)
    requires
        spec_encode_payload(data, level).len() + t.len() <= usize::MAX,
    ensures
        dec_model(
            spec_initial(level),
            initial_decoder(spec_encode_payload(data, level) + t),
            spec_encode_payload(data, level) + t,
            data.len(),
        ) == enc_bytes(spec_initial(level), initial_coder(), data).0,
{
    let f = spec_encode_payload(data, level) + t;
    let e0 = initial_coder();
    assert(coder_wf(e0));
    lemma_enc_bytes_wf(spec_initial(level), e0, data);
    lemma_finish_consistent(enc_bytes(spec_initial(level), e0, data).1, t);
    lemma_initial_tracks(f);
    lemma_dec_bytes(spec_initial(level), initial_decoder(f), e0, f, data);
}

} // verus!
