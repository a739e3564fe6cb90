use dark_bassline::midi_export::{
    build_track, encode_track, ExportStep, MidiEvent, EXPORT_STEPS, TICKS_PER_QUARTER, TICKS_PER_STEP,
};
use midly::{MetaMessage, MidiMessage, Smf, Timing, TrackEventKind};

/// A pattern step as the exporter reads it: velocity scaled to 0..=127, gate length
/// scaled to ticks, both rounded.
fn step(active: bool, note: u8, velocity: f32, gate: f32) -> ExportStep {
    ExportStep {
        active,
        note,
        velocity_rounded: (velocity * 127.0).round() as i32,
        gate_ticks_rounded: (gate * TICKS_PER_STEP as f32).round() as u32,
    }
}

fn empty_pattern() -> [ExportStep; 16] {
    [step(false, 36, 0.8, 0.6); 16]
}

fn single_step_pattern() -> [ExportStep; 16] {
    let mut pattern = empty_pattern();
    pattern[0] = step(true, 36, 0.8, 0.6);
    pattern
}

fn all_active_pattern() -> [ExportStep; 16] {
    [step(true, 36, 0.8, 0.5); 16]
}

fn delta(e: &MidiEvent) -> u32 {
    match *e {
        MidiEvent::Tempo { delta, .. } => delta,
        MidiEvent::NoteOn { delta, .. } => delta,
        MidiEvent::NoteOff { delta, .. } => delta,
        MidiEvent::EndOfTrack { delta } => delta,
    }
}

#[test]
fn test_empty_pattern_produces_valid_track() {
    let track = build_track(&empty_pattern(), 500_000);

    // Should have tempo + end-of-track = 2 events
    assert_eq!(track.len(), 2);
    assert!(matches!(track[0], MidiEvent::Tempo { .. }));
    assert!(matches!(track[1], MidiEvent::EndOfTrack { .. }));

    // End-of-track delta should be 16 steps * 120 ticks = 1920
    assert_eq!(delta(&track[1]), EXPORT_STEPS as u32 * TICKS_PER_STEP);
}

#[test]
fn test_single_active_step() {
    let track = build_track(&single_step_pattern(), 461_538);

    // tempo + NoteOn + NoteOff + EndOfTrack = 4 events
    assert_eq!(track.len(), 4);

    // NoteOn at delta 0 (right after tempo)
    match track[1] {
        MidiEvent::NoteOn { delta, key, velocity } => {
            assert_eq!(delta, 0);
            assert_eq!(key, 36);
            assert_eq!(velocity, 102); // 0.8 * 127 = 101.6 -> 102
        }
        _ => panic!("Expected NoteOn"),
    }

    // NoteOff with gate=0.6 -> 0.6 * 120 = 72 ticks
    assert_eq!(delta(&track[2]), 72);
}

#[test]
fn test_all_active_steps() {
    let track = build_track(&all_active_pattern(), 500_000);

    // tempo + (NoteOn + NoteOff) * 16 + EndOfTrack = 1 + 32 + 1 = 34
    assert_eq!(track.len(), 34);

    // Total ticks sum to 16 * 120 = 1920
    let total_ticks: u32 = track.iter().map(delta).sum();
    assert_eq!(total_ticks, EXPORT_STEPS as u32 * TICKS_PER_STEP);
}

#[test]
fn test_velocity_clamping() {
    let mut pattern = empty_pattern();
    pattern[0] = step(true, 48, 1.0, 0.5); // max
    pattern[1] = step(true, 48, 0.01, 0.5); // very low
    let track = build_track(&pattern, 500_000);

    match track[1] {
        MidiEvent::NoteOn { velocity, .. } => assert_eq!(velocity, 127),
        _ => panic!("Expected NoteOn"),
    }
    // 0.01 * 127 = 1.27 -> clamped to 1
    match track[3] {
        MidiEvent::NoteOn { velocity, .. } => assert_eq!(velocity, 1),
        _ => panic!("Expected NoteOn"),
    }
}

#[test]
fn gates_are_clamped_to_one_step() {
    let mut pattern = empty_pattern();
    pattern[0] = ExportStep { active: true, note: 40, velocity_rounded: 100, gate_ticks_rounded: 0 };
    pattern[1] = ExportStep { active: true, note: 41, velocity_rounded: 100, gate_ticks_rounded: 500 };
    let track = build_track(&pattern, 500_000);
    assert_eq!(track[2], MidiEvent::NoteOff { delta: 1, key: 40, velocity: 0 });
    assert_eq!(track[3], MidiEvent::NoteOn { delta: 119, key: 41, velocity: 100 });
    assert_eq!(track[4], MidiEvent::NoteOff { delta: 120, key: 41, velocity: 0 });
    assert_eq!(track[5], MidiEvent::EndOfTrack { delta: 14 * 120 });
}

#[test]
fn silence_accumulates_between_notes() {
    let mut pattern = empty_pattern();
    pattern[3] = ExportStep { active: true, note: 38, velocity_rounded: 90, gate_ticks_rounded: 60 };
    let track = build_track(&pattern, 400_000);
    assert_eq!(track[0], MidiEvent::Tempo { delta: 0, micros_per_beat: 400_000 });
    assert_eq!(track[1], MidiEvent::NoteOn { delta: 360, key: 38, velocity: 90 });
    assert_eq!(track[2], MidiEvent::NoteOff { delta: 60, key: 38, velocity: 0 });
    assert_eq!(track[3], MidiEvent::EndOfTrack { delta: 60 + 12 * 120 });
    let total: u32 = track.iter().map(delta).sum();
    assert_eq!(total, 1920);
}

#[test]
fn encoded_track_parses_back_as_the_same_events() {
    let track = build_track(&single_step_pattern(), 468_750);
    let bytes = encode_track(&track).expect("encoding into memory should succeed");
    let smf = Smf::parse(&bytes).expect("should parse as valid MIDI");
    assert_eq!(smf.tracks.len(), 1);
    assert_eq!(smf.header.timing, Timing::Metrical(TICKS_PER_QUARTER.into()));
    let events = &smf.tracks[0];
    assert_eq!(events.len(), 4);
    assert!(matches!(
        events[0].kind,
        TrackEventKind::Meta(MetaMessage::Tempo(t)) if t.as_int() == 468_750
    ));
    match events[1].kind {
        TrackEventKind::Midi { message: MidiMessage::NoteOn { key, vel }, .. } => {
            assert_eq!(key.as_int(), 36);
            assert_eq!(vel.as_int(), 102);
        }
        _ => panic!("Expected NoteOn"),
    }
    assert_eq!(events[2].delta.as_int(), 72);
    assert!(matches!(events[3].kind, TrackEventKind::Meta(MetaMessage::EndOfTrack)));
    assert_eq!(events[3].delta.as_int(), 48 + 15 * 120);
}

#[test]
fn export_error_message_names_the_io_error() {
    let err = dark_bassline::midi_export::ExportError::from(std::io::Error::new(
        std::io::ErrorKind::Other,
        "disk full",
    ));
    assert_eq!(err.to_string(), "I/O error: disk full");
}

#[test]
fn velocities_are_clamped_to_the_midi_range() {
    let mut pattern = empty_pattern();
    pattern[0] = ExportStep { active: true, note: 40, velocity_rounded: 0, gate_ticks_rounded: 60 };
    pattern[1] = ExportStep { active: true, note: 41, velocity_rounded: 300, gate_ticks_rounded: 60 };
    pattern[2] = ExportStep { active: true, note: 42, velocity_rounded: -5, gate_ticks_rounded: 60 };
    let track = build_track(&pattern, 500_000);
    assert_eq!(track[1], MidiEvent::NoteOn { delta: 0, key: 40, velocity: 1 });
    assert_eq!(track[3], MidiEvent::NoteOn { delta: 60, key: 41, velocity: 127 });
    assert_eq!(track[5], MidiEvent::NoteOn { delta: 60, key: 42, velocity: 1 });
}

#[test]
fn notes_pair_up_in_step_order() {
    let mut pattern = empty_pattern();
    let active = [1usize, 4, 5, 11, 15];
    for (j, &i) in active.iter().enumerate() {
        pattern[i] = ExportStep {
            active: true,
            note: 30 + j as u8,
            velocity_rounded: 64,
            gate_ticks_rounded: 30 * (j as u32 + 1),
        };
    }
    let track = build_track(&pattern, 500_000);
    assert_eq!(track.len(), 2 + 2 * active.len());
    for j in 0..active.len() {
        match track[1 + 2 * j] {
            MidiEvent::NoteOn { key, velocity, .. } => {
                assert_eq!(key, 30 + j as u8);
                assert!((1..=127).contains(&velocity));
            }
            _ => panic!("Expected NoteOn"),
        }
        match track[2 + 2 * j] {
            MidiEvent::NoteOff { key, velocity, delta } => {
                assert_eq!(key, 30 + j as u8);
                assert_eq!(velocity, 0);
                assert!((1..=TICKS_PER_STEP).contains(&delta));
            }
            _ => panic!("Expected NoteOff"),
        }
    }
}
