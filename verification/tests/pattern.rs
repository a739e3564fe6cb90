use dark_bassline::pattern::{
    build_pitch_weights, draws_needed, generate_pitches, PatternType, BOUNCE_SWITCH_BELOW,
    ROLLING_DROP_BELOW, ROLLING_FIFTH_BELOW, ROLL_DENOMINATOR, ROOT_PULSE_FIFTH_BELOW,
    ROOT_PULSE_FLAT2_BELOW,
};
use dark_bassline::rhythm::euclidean;
use dark_bassline::scale::{RootNote, Scale};

fn roll_value(r: u32) -> f32 {
    r as f32 / ROLL_DENOMINATOR as f32
}

/// A roll bound `t` stands for the `f32` probability `p` when exactly the rolls below
/// `t` give draws below `p`.
fn bound_matches(t: u32, p: f32) {
    assert!(roll_value(t - 1) < p);
    assert!(!(roll_value(t) < p));
}

#[test]
fn roll_bounds_match_the_style_probabilities() {
    bound_matches(ROOT_PULSE_FIFTH_BELOW, 0.15);
    bound_matches(ROOT_PULSE_FLAT2_BELOW, 0.25);
    bound_matches(ROLLING_FIFTH_BELOW, 0.1);
    bound_matches(ROLLING_DROP_BELOW, 0.15);
    bound_matches(BOUNCE_SWITCH_BELOW, 0.8);
}

#[test]
fn pitch_weights_favour_root_and_fifth() {
    let (w, len) = build_pitch_weights(Scale::Phrygian.intervals());
    assert_eq!(len, 7);
    assert_eq!(w, [5, 1, 1, 1, 3, 1, 1, 1, 1, 1, 1, 1]);
    let (w, len) = build_pitch_weights(Scale::MinorPentatonic.intervals());
    assert_eq!(len, 5);
    assert_eq!(&w[..5], &[5, 1, 1, 3, 1]);
    let (w, len) = build_pitch_weights(&[]);
    assert_eq!(len, 0);
    assert_eq!(w, [1; 12]);
}

#[test]
fn draw_schedule_per_style() {
    let rhythm = euclidean(6, 16);
    let root_pulse = draws_needed(PatternType::RootPulse, &rhythm);
    assert!(root_pulse[..8].iter().all(|&d| !d) && root_pulse[8..].iter().all(|&d| d));
    assert!(draws_needed(PatternType::Rolling16th, &rhythm).iter().all(|&d| d));
    assert!(draws_needed(PatternType::PhrygianDrop, &rhythm).iter().all(|&d| !d));
    assert_eq!(draws_needed(PatternType::OctaveBounce, &rhythm), rhythm);
    let sync = draws_needed(PatternType::Syncopated, &rhythm);
    for i in 0..16 {
        assert_eq!(sync[i], rhythm[i] && i % 4 != 0);
    }
}

#[test]
fn root_pulse_varies_only_the_second_half() {
    let rhythm = euclidean(4, 16);
    let mut draws = [ROLL_DENOMINATOR - 1; 16];
    draws[8] = 0; // fifth
    draws[9] = ROOT_PULSE_FIFTH_BELOW; // flat second
    draws[10] = ROOT_PULSE_FLAT2_BELOW; // root
    draws[0] = 0; // not read
    let p = generate_pitches(RootNote::C, Scale::Phrygian, 2, PatternType::RootPulse, &rhythm, &draws);
    assert_eq!(p[0], 36);
    assert_eq!(p[8], 43);
    assert_eq!(p[9], 37);
    assert_eq!(p[10], 36);
    assert!(p[11..].iter().all(|&n| n == 36));
}

#[test]
fn syncopated_keeps_downbeats_on_the_root() {
    let rhythm = euclidean(8, 16);
    let mut draws = [0u32; 16];
    for (i, d) in draws.iter_mut().enumerate() {
        *d = (i % 7) as u32;
    }
    let p = generate_pitches(RootNote::A, Scale::NaturalMinor, 2, PatternType::Syncopated, &rhythm, &draws);
    for i in 0..16 {
        if !rhythm[i] || i % 4 == 0 {
            assert_eq!(p[i], 45);
        } else {
            let degree = draws[i] as i8;
            assert_eq!(p[i], dark_bassline::scale::degree_to_midi(RootNote::A, Scale::NaturalMinor, 2, degree));
        }
    }
}

#[test]
fn rolling_anchors_downbeats_and_drops_a_semitone() {
    let rhythm = euclidean(16, 16);
    let mut draws = [ROLL_DENOMINATOR - 1; 16];
    draws[0] = 0;
    draws[1] = 0;
    draws[2] = ROLLING_FIFTH_BELOW;
    let p = generate_pitches(RootNote::D, Scale::Dorian, 1, PatternType::Rolling16th, &rhythm, &draws);
    assert_eq!(p[0], 26);
    assert_eq!(p[1], 33);
    assert_eq!(p[2], 25);
    assert_eq!(p[3], 26);
}

#[test]
fn phrygian_drop_uses_the_flat_second_in_the_tension_zones() {
    let rhythm = [true; 16];
    let p = generate_pitches(RootNote::E, Scale::Phrygian, 2, PatternType::PhrygianDrop, &rhythm, &[0; 16]);
    for i in 0..16 {
        let expected = if (4..8).contains(&i) || (12..16).contains(&i) { 41 } else { 40 };
        assert_eq!(p[i], expected);
    }
}

#[test]
fn octave_bounce_alternates_unless_the_roll_repeats() {
    let rhythm = euclidean(4, 16);
    let mut draws = [0u32; 16];
    draws[4] = BOUNCE_SWITCH_BELOW; // the second hit does not switch
    let p = generate_pitches(RootNote::C, Scale::Phrygian, 2, PatternType::OctaveBounce, &rhythm, &draws);
    assert_eq!([p[0], p[4], p[8], p[12]], [36, 48, 48, 36]);
    assert_eq!(p[1], 36);
    let top = generate_pitches(RootNote::B, Scale::Phrygian, 9, PatternType::OctaveBounce, &rhythm, &[0; 16]);
    assert_eq!([top[0], top[4]], [127, 127]);
}

#[test]
fn syncopated_hits_are_scale_tones_of_the_root_octave() {
    let rhythm = euclidean(11, 16);
    let mut draws = [0u32; 16];
    for (i, d) in draws.iter_mut().enumerate() {
        *d = (i % 5) as u32;
    }
    let p = generate_pitches(RootNote::G, Scale::MinorPentatonic, 1, PatternType::Syncopated, &rhythm, &draws);
    let tones: Vec<u8> = (0..5)
        .map(|d| dark_bassline::scale::degree_to_midi(RootNote::G, Scale::MinorPentatonic, 1, d))
        .collect();
    for i in 0..16 {
        if rhythm[i] && i % 4 != 0 {
            assert!(tones.contains(&p[i]));
        } else {
            assert_eq!(p[i], tones[0]);
        }
    }
}
