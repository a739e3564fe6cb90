# dark_bassline

A generative MIDI bassline engine for a 16-step bar, verified with Verus, and the
plugin shell that drives it.

## Layout

- `src/` — the verified engine:
  - `rhythm` — Euclidean rhythms (Bresenham line) and rotation; proves the onset count,
    the even spacing of onsets, and the rotation laws.
  - `scale` — root notes, scales and the degree-to-MIDI mapping; proves octave wrapping,
    monotonicity, that degree 0 is the root and that the fifth is seven semitones up.
  - `pattern` — pitch generation for the five styles, from caller-drawn random choices,
    and the weights for the syncopated style's weighted pick.
  - `sequencer` — the block-by-block step sequencer: transport start/stop/jump handling,
    note triggering, note-off scheduling; proves that stopping releases everything, that
    starting is clean, that no due note survives a sample and that at most one note per
    pitch sounds.
  - `note_balance` — the sequencer over whole runs of blocks: each note-off answers an
    earlier note-on of its pitch, and a run that ends on a stop leaves every note-on
    answered.
  - `midi_export` — the exported event track and its encoding with midly; proves the
    track spans exactly one bar and holds a note-on/note-off pair per active step, in
    step order, with velocities in 1..=127 and gates of one step at most.
  - `debug_state` — transport and export diagnostics; the export outcome held is always
    consistent (an error message exactly on failure, a path on success).
  - `step_indicator` — the shade of each cell of the editor's step indicator.
  - `bundle_args` — the package default of the bundling command.
- `tests/` — tests of the engine.
- `app/` — the unverified shell: nih-plug glue, the egui editor, random draws and all
  floating-point arithmetic (clock, velocities, conversions), locks and file I/O.

Floating-point values that the engine only carries (tempo, beat positions, velocities)
cross into it as their bit patterns.
