use dark_bassline::sequencer::{BlockPlan, SeqEvent, SeqStep, Sequencer};

const SAMPLE_RATE: f64 = 48_000.0;
const TEMPO: f64 = 120.0;

fn pattern_with_single_hit() -> ([SeqStep; 16], [f32; 16]) {
    let mut steps = [SeqStep { active: false, note: 36, velocity_bits: 0.8f32.to_bits() }; 16];
    let mut gates = [0.6f32; 16];
    steps[0] = SeqStep { active: true, note: 36, velocity_bits: 0.8f32.to_bits() };
    gates[0] = 0.75;
    (steps, gates)
}

/// Runs one block the way the plugin does: the clock arithmetic in floating point,
/// the decisions in the sequencer.
fn process(
    sequencer: &mut Sequencer,
    buffer_len: u32,
    pattern: &([SeqStep; 16], [f32; 16]),
    swing_amount: f32,
    playing: bool,
    pos_beats: Option<f64>,
    events: &mut Vec<SeqEvent>,
) {
    let samples_per_beat = SAMPLE_RATE * 60.0 / TEMPO;
    let samples_per_16th = samples_per_beat / 4.0;
    let host_beat = pos_beats.unwrap_or(0.0);
    let last = f64::from_bits(sequencer.last_host_beat_bits());
    let advanced = host_beat != last && last >= 0.0;
    let jumped = last >= 0.0 && (host_beat - last).abs() > 0.5;

    let start = sequencer.begin_block(playing, host_beat.to_bits(), advanced, jumped);
    events.extend(start.note_offs);
    let Some(start_bits) = start.start_beat_bits else {
        return;
    };
    let start_beat = f64::from_bits(start_bits);
    let step_at = (0..buffer_len)
        .map(|offset| {
            let beat = start_beat + offset as f64 / samples_per_beat;
            (beat * 4.0).rem_euclid(16.0) as usize
        })
        .collect();
    let mut gate_samples = [0u64; 16];
    for (g, gate) in gate_samples.iter_mut().zip(pattern.1.iter()) {
        *g = (samples_per_16th * *gate as f64) as u64;
    }
    let plan = BlockPlan {
        step_at,
        swing_delay: (samples_per_16th * swing_amount as f64 * 0.5) as u64,
        gate_samples,
    };
    let next = start_beat + buffer_len as f64 / samples_per_beat;
    events.extend(sequencer.run_block(&plan, &pattern.0, next.to_bits(), host_beat.to_bits()));
}

#[test]
fn stopped_transport_does_not_emit_notes_by_default() {
    let mut sequencer = Sequencer::new();
    let mut events = Vec::new();

    process(&mut sequencer, 512, &pattern_with_single_hit(), 0.0, false, None, &mut events);

    assert!(events.is_empty());
    assert!(!sequencer.is_running());
}

#[test]
fn reset_clears_active_note_and_transport_tracking_state() {
    let mut sequencer = Sequencer::new();
    let mut events = Vec::new();

    process(&mut sequencer, 64, &pattern_with_single_hit(), 0.0, true, Some(0.0), &mut events);

    assert!(!sequencer.active_notes().is_empty());
    assert!(sequencer.is_running());
    assert!(sequencer.samples_processed() > 0);

    sequencer.reset();

    assert!(sequencer.active_notes().is_empty());
    assert!(!sequencer.is_running());
    assert_eq!(sequencer.samples_processed(), 0);
    assert_eq!(f64::from_bits(sequencer.last_host_beat_bits()), -1.0);
    assert!(!sequencer.host_transport_works());
    assert_eq!(sequencer.eval_count(), 0);
}

#[test]
fn restart_after_reset_does_not_emit_stale_note_offs() {
    let mut sequencer = Sequencer::new();
    let mut events = Vec::new();

    process(&mut sequencer, 64, &pattern_with_single_hit(), 0.0, true, Some(0.0), &mut events);
    sequencer.reset();
    events.clear();

    process(&mut sequencer, 64, &pattern_with_single_hit(), 0.0, true, Some(0.0), &mut events);

    assert!(matches!(events.as_slice(), [SeqEvent::NoteOn { .. }]));
}

#[test]
fn note_on_carries_step_note_and_velocity() {
    let mut sequencer = Sequencer::new();
    let mut events = Vec::new();
    process(&mut sequencer, 64, &pattern_with_single_hit(), 0.0, true, Some(0.0), &mut events);
    assert_eq!(
        events,
        vec![SeqEvent::NoteOn { timing: 0, channel: 0, note: 36, velocity_bits: 0.8f32.to_bits() }]
    );
    assert_eq!(sequencer.active_notes()[0].off_sample, 4500);
}

#[test]
fn note_off_fires_after_the_gate() {
    let mut sequencer = Sequencer::new();
    let mut events = Vec::new();
    let pattern = pattern_with_single_hit();
    // 48 kHz at 120 bpm: a sixteenth lasts 6000 samples; this step holds for 0.75 of one.
    for _ in 0..80 {
        process(&mut sequencer, 64, &pattern, 0.0, true, Some(0.0), &mut events);
    }
    let offs: Vec<_> = events.iter().filter(|e| matches!(e, SeqEvent::NoteOff { .. })).collect();
    assert_eq!(offs.len(), 1);
    // 4500 = 70 * 64 + 20
    assert_eq!(*offs[0], SeqEvent::NoteOff { timing: 20, channel: 0, note: 36 });
    assert!(sequencer.active_notes().is_empty());
}

#[test]
fn stopping_releases_sounding_notes() {
    let mut sequencer = Sequencer::new();
    let mut events = Vec::new();
    let pattern = pattern_with_single_hit();
    process(&mut sequencer, 64, &pattern, 0.0, true, Some(0.0), &mut events);
    events.clear();
    process(&mut sequencer, 64, &pattern, 0.0, false, None, &mut events);
    assert_eq!(events, vec![SeqEvent::NoteOff { timing: 0, channel: 0, note: 36 }]);
    assert!(!sequencer.is_running());
    assert!(sequencer.active_notes().is_empty());
}

#[test]
fn retriggering_a_pitch_releases_it_first() {
    let mut sequencer = Sequencer::new();
    let start = sequencer.begin_block(true, 0, false, false);
    assert!(start.note_offs.is_empty());
    let steps = [SeqStep { active: true, note: 40, velocity_bits: 7 }; 16];
    // Step 0 for two samples, then step 1: the second note-on of pitch 40 first releases
    // the first one.
    let plan = BlockPlan { step_at: vec![0, 0, 1], swing_delay: 0, gate_samples: [1000; 16] };
    let events = sequencer.run_block(&plan, &steps, 0, 0);
    assert_eq!(
        events,
        vec![
            SeqEvent::NoteOn { timing: 0, channel: 0, note: 40, velocity_bits: 7 },
            SeqEvent::NoteOff { timing: 2, channel: 0, note: 40 },
            SeqEvent::NoteOn { timing: 2, channel: 0, note: 40, velocity_bits: 7 },
        ]
    );
    assert_eq!(sequencer.active_notes().len(), 1);
    assert_eq!(sequencer.samples_processed(), 3);
}

#[test]
fn swing_delays_odd_steps_within_the_block() {
    let mut sequencer = Sequencer::new();
    sequencer.begin_block(true, 0, false, false);
    let mut steps = [SeqStep { active: false, note: 0, velocity_bits: 0 }; 16];
    steps[1] = SeqStep { active: true, note: 50, velocity_bits: 1 };
    let plan = BlockPlan { step_at: vec![1, 1, 1, 1], swing_delay: 2, gate_samples: [100; 16] };
    let events = sequencer.run_block(&plan, &steps, 0, 0);
    assert_eq!(events, vec![SeqEvent::NoteOn { timing: 2, channel: 0, note: 50, velocity_bits: 1 }]);
    // Timing never passes the last sample of the block.
    let mut sequencer = Sequencer::new();
    sequencer.begin_block(true, 0, false, false);
    let plan = BlockPlan { step_at: vec![1, 1], swing_delay: 9, gate_samples: [100; 16] };
    let events = sequencer.run_block(&plan, &steps, 0, 0);
    assert_eq!(events, vec![SeqEvent::NoteOn { timing: 1, channel: 0, note: 50, velocity_bits: 1 }]);
    assert_eq!(sequencer.active_notes()[0].off_sample, 101);
}

#[test]
fn host_jump_releases_notes_and_follows_the_host() {
    let mut sequencer = Sequencer::new();
    let pattern = pattern_with_single_hit();
    let mut events = Vec::new();
    // First block starts the sequencer; the second sees the host beat move.
    process(&mut sequencer, 64, &pattern, 0.0, true, Some(0.0), &mut events);
    process(&mut sequencer, 64, &pattern, 0.0, true, Some(0.01), &mut events);
    assert!(sequencer.host_transport_works());
    events.clear();
    // A jump of more than half a beat: everything sounding is released first.
    let start = sequencer.begin_block(true, 3.0f64.to_bits(), true, true);
    assert_eq!(start.note_offs, vec![SeqEvent::NoteOff { timing: 0, channel: 0, note: 36 }]);
    assert_eq!(start.start_beat_bits, Some(3.0f64.to_bits()));
    assert_eq!(sequencer.current_beat_pos_bits(), 3.0f64.to_bits());
    assert!(sequencer.active_notes().is_empty());
}

#[test]
fn host_watch_stops_after_the_evaluation_window() {
    let mut sequencer = Sequencer::new();
    sequencer.begin_block(true, 0, false, false);
    for _ in 0..2100 {
        sequencer.begin_block(true, 0, false, false);
    }
    assert_eq!(sequencer.eval_count(), 2000);
    sequencer.begin_block(true, 0, true, false);
    assert!(!sequencer.host_transport_works());
}

#[test]
fn sixteenth_counts_wrap_into_the_bar() {
    let mut sequencer = Sequencer::new();
    sequencer.begin_block(true, 0, false, false);
    let mut steps = [SeqStep { active: false, note: 0, velocity_bits: 0 }; 16];
    steps[0] = SeqStep { active: true, note: 45, velocity_bits: 3 };
    steps[1] = SeqStep { active: true, note: 46, velocity_bits: 4 };
    // Sixteenth 16 is step 0 of the bar, 17 is step 1.
    let plan = BlockPlan { step_at: vec![16, 17], swing_delay: 0, gate_samples: [100; 16] };
    let events = sequencer.run_block(&plan, &steps, 0, 0);
    assert_eq!(
        events,
        vec![
            SeqEvent::NoteOn { timing: 0, channel: 0, note: 45, velocity_bits: 3 },
            SeqEvent::NoteOn { timing: 1, channel: 0, note: 46, velocity_bits: 4 },
        ]
    );
}

#[test]
fn note_offs_answer_note_ons_across_blocks_until_stop() {
    let mut steps = [SeqStep { active: false, note: 0, velocity_bits: 0 }; 16];
    let mut gates = [0.5f32; 16];
    for i in 0..16 {
        steps[i] = SeqStep { active: i % 3 != 2, note: 36 + (i % 4) as u8, velocity_bits: 0 };
        gates[i] = 0.2 + 0.3 * (i % 3) as f32;
    }
    let pattern = (steps, gates);
    let mut sequencer = Sequencer::new();
    let mut events = Vec::new();
    for _ in 0..40 {
        process(&mut sequencer, 700, &pattern, 0.4, true, None, &mut events);
    }
    process(&mut sequencer, 700, &pattern, 0.4, false, None, &mut events);
    assert!(sequencer.active_notes().is_empty());
    let mut ons = 0;
    for note in 0..=255u8 {
        let mut balance: i64 = 0;
        for e in &events {
            match *e {
                SeqEvent::NoteOn { note: n, channel: 0, .. } if n == note => {
                    balance += 1;
                    ons += 1;
                }
                SeqEvent::NoteOff { note: n, channel: 0, .. } if n == note => balance -= 1,
                _ => {}
            }
            assert!(balance >= 0);
        }
        assert_eq!(balance, 0);
    }
    assert!(ons > 0);
}
