# Gemstone

The logic of a small workstation for additive resynthesis and composing with
VST3 instruments, written and proved in [Verus](https://github.com/verus-lang/verus).

- `src/` — the library. Its functions are verified against their contracts, but for
  six that are trusted: the specification of `String::push`, the wrappers of three
  other functions of std in `text.rs`, `fresh_uuid` in `tracks/naming.rs`, which
  calls uuid, and `stamp` in `audio/capture.rs`, which calls chrono. It holds
  the composer's rows, blocks, takes and player; projects and grids as files;
  the tracks and the registry; MIDI routing; the audio engine's layouts, the
  WAV writer and the limiter's stream; segmentation; the editor window's frame.
  Floating-point numbers stand in it as the bits of the number.
- `app/` — ordinary Rust around it: devices, files, windows, the drawing of the
  panels, and the arithmetic on samples. Loading plugins comes in through the two
  traits of `app/host.rs`.
- `tests/` — the library's behaviour on concrete values.
