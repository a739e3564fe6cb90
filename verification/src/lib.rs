//! Generative bassline engine: Euclidean rhythms, scale-aware pitch selection,
//! a transport-driven step sequencer, MIDI track construction and the small
//! pieces of shared state that the plugin shell exposes to its editor.

pub mod rhythm;
pub mod bundle_args;
pub mod debug_state;
pub mod midi_export;
pub mod note_balance;
pub mod pattern;
pub mod scale;
pub mod sequencer;
pub mod step_indicator;
