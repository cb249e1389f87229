# plugovr

A diphone-concatenation singing synthesizer for General American English,
packaged as a VST3/CLAP plugin. The library under `src/` carries proved
contracts; `app/` holds the plugin, file access and the floating-point
signal path.

Layout of `src/`:

- `deque.rs` — fixed-capacity ring queue of segment indices.
- `text.rs` — character-sequence helpers (trimming, search, ordering).
- `mpron.rs` — Moby Pronunciator II pronunciation parser, the embedded
  dictionary and dictionary files (Windows-1252). The embedded dictionary
  holds only a sample of Moby entries (`a`, `hello`, `record`, `the`,
  `world`); other words go to the spelling-based guesser.
- `phonetics.rs` — CMU Pronouncing Dictionary parser.
- `g2p.rs` — text to X-SAMPA phonemes (dictionary, corrections, guesser,
  glide insertion, normalization).
- `voice.rs` — the `.voice` file format and the voice database, with the
  phoneme-to-diphone conversion.
- `schedule.rs` — which queued segments a syllable spans, wavetable frame
  positions, lyrics to segment indices.
- `voices.rs` — voice file names and the sorted list of available voices.
- `control.rs` — the plugin's note and reset state machine.

The tests under `tests/` exercise the library through its public API.
