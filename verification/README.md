# tape_decode

The signal chain of a video tape decoder, verified with Verus: demodulation of RF
blocks, chroma decoding for NTSC, PAL and SECAM, and the filters and math kernels
under both.

The library is generic over its sample types. A contract pins down which
operations of a sample type are applied to which operands, in which order; what
the operations answer is the type's own affair. Laws that hold but for rounding are
stated over arithmetic that does not round.

## Layout

- `src/sample.rs`, `src/complex.rs`, `src/ieee.rs`, `src/reals.rs`: samples and
  numbers.
- `src/machine.rs`, `src/sos.rs`, `src/steady.rs`, `src/sosfiltfilt.rs`,
  `src/first_order.rs`, `src/scan.rs`, `src/filter.rs`: digital filters. Their laws
  are in `src/filter_laws.rs`, `src/scan_laws.rs`, `src/steady_laws.rs` and
  `src/constant_laws.rs`.
- `src/fast_math.rs`, `src/unwrap_angles.rs`, `src/spikes.rs`, `src/median.rs`:
  kernels for the per-sample loops.
- `src/transforms.rs`, `src/spectrum.rs`, `src/transform_laws.rs`: spectra.
- `src/block.rs`, `src/sub_deemphasis.rs`, `src/demodblock.rs`: one block of RF.
- `src/field.rs`, `src/acquire.rs`, `src/chroma.rs`, `src/acc_laws.rs`, `src/comb.rs`,
  `src/decode_chroma.rs`: the chroma of a field.
- `src/secam_lines.rs`, `src/secam.rs`, `src/secam_laws.rs`: SECAM.
- `src/request.rs`, `src/text.rs`: options and system parameters, and the words of
  errors.
- `app/`: machine floats as sample types, the transforms of `realfft` and `rustfft`,
  the dynamic filter of `sci-rs`, requests as they are read, and errors as they are
  reported.
