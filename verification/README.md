# qkd-network-sim

A simulator of the BB84 quantum key distribution protocol with an
intercept-resend eavesdropper, written in Verus.

- `src/` is the verified library: photon preparation and measurement
  (`photon`, `alice`, `bob`), the eavesdropper (`eve`), basis sifting over
  the public channel (`channel`), error-rate estimation (`qber`), simulated
  error correction and Toeplitz privacy amplification
  (`privacy_amplification`), the batched streaming stages (`pipeline`), and
  the protocol's laws (`laws`). Random draws come from `rand_chacha`
  through `rng`, and parallel maps from `rayon` through `parallel`; the
  library states what holds whatever the generator draws.
- Probabilities are integers: a probability `p` is the number of 53-bit
  fractions below it, `ceil(p * 2^53)`, so that a draw `random::<f64>() < p`
  is the integer test `word >> 11 < threshold`.
- `app/` is the command-line program: option parsing, timing, threads,
  progress bars and coloured reports around the library.
- `tests/` runs the library on concrete inputs.
