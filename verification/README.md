# stardust

The core of a host for live music: patch and show documents, patch graphs,
sample instruments, MIDI, voices, audio outputs and plugin discovery. It is
written in Rust and proved with Verus: each function of the library states in
its contract what it gives back or changes, and the laws that hold across
functions stand beside them as proof functions whose names begin with `law_`.

## Layout

- `src/json.rs`: JSON values as plain data. `serde_json` reads the text.
- `src/patch/`: patch graphs, their validation, and patch documents with their
  migrations.
- `src/show/`: shows, their validation, and show documents with their
  migrations.
- `src/sfz/`: the SFZ format, instruments and the limits under which their
  samples are loaded, the voices of the sample player, and the plugin around it.
- `src/dsp/`: envelopes and the voices of the built-in tone generator.
- `src/midi/`: MIDI messages, read, written and shown.
- `src/plugin/`: plugin bundles: where they are found, what they say, when they
  had last changed, and the cache of scans.
- `src/audio.rs`, `src/rt.rs`, `src/paths.rs`, `src/text.rs`, `src/numbers.rs`:
  audio outputs, the queue between threads, file paths, text, floating-point
  numbers as bits.
- `tests/`: the library from outside, on concrete values.
- `app/`: a program around the library. It does the input and output, decodes
  documents into types, and computes the sound, which is floating point.

## What is trusted

Contracts of outside functions are believed, not proved: reading a JSON text,
taking a `serde_json` value apart and telling its errors in words
(`src/json.rs`), putting a message into an `rtrb` queue (`src/rt.rs`), and two
functions of the standard library on texts (`src/text.rs`). Each stands in a
function of its own that says what it claims.

Directories are listed, files looked at, samples decoded and bundles loaded by
functions that the caller gives; the contracts say what is made of whatever they
answer.
