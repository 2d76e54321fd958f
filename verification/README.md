# nhvsampler

The verified core of an NHVSing-based UTAU resampler backend, written in
Verus.

- `src/` is the library, proved by Verus:
  - `consts`: audio constants, the v3/v3x vocoder rules (hop sizes), and the
    configuration rules (INI general section through the `ini` crate, with
    defaults for every missing or unreadable setting);
  - `model`: vocoder pool sizing and round-robin hand-out;
  - `utils::llsm`: the tagged binary container of `.llsm` analysis files;
  - `utils::cache`: the feature-cache file codec and FRQ pitch-file checks;
  - `utils::vuv`: smoothing of per-frame unvoiced flags;
  - `audio::post_process`: the silence-trimming and fade decisions of
    loudness normalisation.
  Real numbers cross the library as IEEE-754 bit patterns.
- `app/` is the runtime shell: file and lock handling, global state, and the
  floating-point signal processing (STFT, pitch detection, loudness), which
  calls the library for every decision it can make on plain values.
- `tests/` exercises the library on concrete inputs.
