# Cherry

A native music visualizer where the audio plays the game. This crate splits
it in two:

- `src/` — the `cherry` library, verified with Verus: everything that decides
  rather than draws.
  - `config` — the `key=value` settings file: reading any text, writing it back
    (reading what was written gives the same settings), the recent-files list.
  - `cli` — the command line.
  - `session` — what a run sets out to do, and the rules that keep the
    background jobs (decoding, the save dialog, exporting) from overlapping.
  - `export` — export sizes, frame bookkeeping, the row flip of read-back
    frames, the encoder's arguments and the 16-bit WAV it muxes in.
  - `course` — how a beat becomes an obstacle and the min-gap sweep that keeps
    obstacles apart.
  - `modes`, `media`, `color` — mode order and lookup, audio file types, the
    transport clock, colors.
  - `text`, `volume` — the character-level parsing and formatting underneath.
- `app/` — the program around it: window, GPU drawing, the modes' floating-point
  simulations, audio, decoding, dialogs, files and the `ffmpeg` process.
- `tests/` — tests of the library.
