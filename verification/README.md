# morse

A Morse code library, verified with Verus, and the command-line program
around it.

The library (`src/`) encodes English letters and digits as Morse, decodes
Morse (with `.`/`·` dots, `-`/`_` dashes, and letter, word and paragraph gaps
read from whitespace), tells the two apart, decodes Morse keyed one signal at
a time, lays out the timing of a message as tones and silences, and holds the
rules of the real-time keying and examination modes. Every function carries
a contract that Verus proves; `laws.rs` proves that decoding undoes
encoding, that translation round-trips, that decoding reads each signal run
as its letter with the gap text between, that alternate symbols decode
alike, that encoding ignores case and spacing, that re-encoding decoded Morse
keeps its signals, and that an encoding exam accepts the question's Morse.
`stream.rs` proves that keying keeps the decoder's text well formed.

- `table.rs`: the Morse alphabet and its lookup.
- `encode.rs`, `decode.rs`, `detect.rs`: translation.
- `stream.rs`: decoding keyed Morse as it arrives.
- `timing.rs`, `waveform.rs`: the layout of the sound and its timbres.
- `realtime.rs`, `keys.rs`: timing boundaries, keys and modes for keying.
- `exam.rs`, `numbers.rs`: exam checks, command-line numbers and file names.
- `text.rs`: character classes and string building.

`app/` holds the program: argument parsing, terminal and file I/O, the
floating-point rendering of the sound and its OGG encoding through `ffmpeg`.
