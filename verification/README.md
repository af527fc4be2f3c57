# acoustic_drone

The integer core of an acoustic drone-detection toolkit, written in Verus and
proved against its contracts.

`src/` is the verified library:

- `rng` – the seeded xorshift-family generators (32-bit, 64-bit, xorshift64*
  with a SplitMix seed avalanche) and the seed derivations built on them.
- `shuffle` – seeded Fisher–Yates shuffles, proved to permute.
- `split` – stratified train/test splits, stratified k-fold assignment and the
  per-round fold parts, the stride holdout used by stacked ensembles.
- `framing` – analysis-frame offsets, fixed-length clip windows, stride
  subsampling, training batches and the time slots of a spectro-temporal
  patch.
- `latch` – the hold-then-latch alert of the edge detector, early stopping,
  and the firmware's logging decision.
- `lags` – the lags a correlation-peak search visits and their positions in a
  circular buffer.
- `manifest` – the `path,label` manifest reader; `esc50` – choosing negative
  clips from the ESC-50 metadata table.
- `grouping` – grouping results by brand or category.
- `text` – brand names, name order and clip seeds; `catalog`, `approaches` –
  the approach profiles, the cheapest-first order of the speed/accuracy
  frontier, and the approaches' names.

`app/` is the command-line program around it: audio decoding, the FFT and
spectral features, the floating-point detectors and ensembles, signal
separation and metrics, which work on `f32`/`f64` samples.

`tests/` runs the library on concrete inputs.
