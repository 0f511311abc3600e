# bmrc

A lossless compressor built around adaptive context mixing, written in
Verus. Order-N context models and a long-range match model feed an adaptive
mixer, optionally refined by SSE stages; the resulting 12-bit bit
probabilities drive a carry-less 32-bit binary range coder. All model
arithmetic is fixed-point integer arithmetic, so encoder and decoder run the
same model bit for bit.

**Stream compatibility.** The `.bmrc` header (magic `BMR1`) does not name
the model, and coded payloads decode correctly only with this exact
fixed-point model. A coded `BMR1` stream produced by a different model of
the same format, such as a floating-point implementation of the same
levels, is not detected: `decompress` returns `Ok` with other bytes than
were compressed. Stored streams (flag 1) are plain and readable by any
implementation. Exchange coded streams only between programs built on this
library.

## Layout

- `src/format.rs`: the 14-byte `.bmrc` header.
- `src/range_coder.rs`: the binary range coder, with a proof that decoding
  with the same probabilities recovers the encoded bits.
- `src/levels.rs`: the ten level configurations and their memory needs.
- `src/predictor.rs`: squash/stretch, hashing, the match model, the SSE
  stages and the bit predictor, each specified by a state-transition model.
- `src/payload.rs`: coding a byte string with the predictor and the range
  coder, with its round-trip proof.
- `src/bwt.rs`, `src/bwt_lf.rs`: the Burrows-Wheeler pre-pass and the proof
  that the LF mapping inverts it.
- `src/parallel.rs`: the block-parallel `.bmrp` envelope and its laws.
- `src/lib.rs`: `compress`, `compress_bwt` and `decompress`, with the
  round-trip laws for both kinds of stream.
- `app/`: the command-line program, including the threads that compress or
  decompress the blocks of a `.bmrp` envelope.
- `tests/`: executable tests of the library.
