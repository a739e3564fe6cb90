use dark_bassline::scale::{degree_to_midi, fifth_midi_note, root_midi_note, RootNote, Scale};

const ROOTS: [RootNote; 12] = [
    RootNote::C,
    RootNote::CSharp,
    RootNote::D,
    RootNote::DSharp,
    RootNote::E,
    RootNote::F,
    RootNote::FSharp,
    RootNote::G,
    RootNote::GSharp,
    RootNote::A,
    RootNote::ASharp,
    RootNote::B,
];

const SCALES: [Scale; 5] = [
    Scale::Phrygian,
    Scale::NaturalMinor,
    Scale::HarmonicMinor,
    Scale::MinorPentatonic,
    Scale::Dorian,
];

#[test]
fn test_root_midi_note() {
    assert_eq!(root_midi_note(RootNote::C, 2), 36); // C2
    assert_eq!(root_midi_note(RootNote::A, 3), 57); // A3
}

#[test]
fn test_degree_to_midi_phrygian() {
    // C Phrygian: C, Db, Eb, F, G, Ab, Bb
    assert_eq!(degree_to_midi(RootNote::C, Scale::Phrygian, 2, 0), 36); // C2
    assert_eq!(degree_to_midi(RootNote::C, Scale::Phrygian, 2, 1), 37); // Db2
    assert_eq!(degree_to_midi(RootNote::C, Scale::Phrygian, 2, 4), 43); // G2 (fifth)
}

#[test]
fn test_negative_degree() {
    // Going below the root wraps to the lower octave
    let note = degree_to_midi(RootNote::C, Scale::Phrygian, 2, -1);
    assert_eq!(note, 34); // Bb1
}

#[test]
fn test_clamp() {
    assert_eq!(degree_to_midi(RootNote::C, Scale::Phrygian, 0, -20), 0);
    assert_eq!(degree_to_midi(RootNote::C, Scale::Phrygian, 9, 20), 127);
}

#[test]
fn midi_offsets_count_semitones_above_c() {
    for (i, root) in ROOTS.iter().enumerate() {
        assert_eq!(root.midi_offset() as usize, i);
    }
}

#[test]
fn intervals_of_each_scale() {
    assert_eq!(Scale::Phrygian.intervals(), &[0, 1, 3, 5, 7, 8, 10]);
    assert_eq!(Scale::NaturalMinor.intervals(), &[0, 2, 3, 5, 7, 8, 10]);
    assert_eq!(Scale::HarmonicMinor.intervals(), &[0, 2, 3, 5, 7, 8, 11]);
    assert_eq!(Scale::MinorPentatonic.intervals(), &[0, 3, 5, 7, 10]);
    assert_eq!(Scale::Dorian.intervals(), &[0, 2, 3, 5, 7, 9, 10]);
}

#[test]
fn degree_zero_is_the_root_and_fifth_is_seven_semitones_up() {
    for root in ROOTS {
        for scale in SCALES {
            for octave in 0..=8u8 {
                let r = root_midi_note(root, octave);
                assert_eq!(degree_to_midi(root, scale, octave, 0), r);
                if r + 7 <= 127 {
                    assert_eq!(fifth_midi_note(root, scale, octave), r + 7);
                }
            }
        }
    }
}

#[test]
fn pentatonic_fifth_is_found_by_interval() {
    // In the pentatonic scale the fifth is degree 3, not degree 4.
    assert_eq!(fifth_midi_note(RootNote::C, Scale::MinorPentatonic, 2), 43);
    assert_eq!(degree_to_midi(RootNote::C, Scale::MinorPentatonic, 2, 4), 46);
}

#[test]
fn a_scale_length_up_is_an_octave_up() {
    for scale in SCALES {
        let len = scale.intervals().len() as i8;
        for degree in -20..20i8 {
            let low = degree_to_midi(RootNote::E, scale, 3, degree);
            let high = degree_to_midi(RootNote::E, scale, 3, degree + len);
            if low > 0 && high < 127 {
                assert_eq!(high, low + 12);
            }
        }
    }
}

#[test]
fn degrees_climb_and_stay_in_midi_range() {
    for scale in SCALES {
        let mut previous = None;
        for degree in -100..=100i8 {
            let note = degree_to_midi(RootNote::G, scale, 4, degree);
            assert!(note <= 127);
            if let Some(p) = previous {
                assert!(note >= p);
            }
            previous = Some(note);
        }
    }
}

#[test]
fn root_clamps_at_the_top_of_the_midi_range() {
    assert_eq!(root_midi_note(RootNote::B, 255), 127);
    assert_eq!(root_midi_note(RootNote::G, 9), 127);
    assert_eq!(root_midi_note(RootNote::FSharp, 9), 126);
}

#[test]
fn lowest_degree_clamps_to_zero() {
    assert_eq!(degree_to_midi(RootNote::C, Scale::Phrygian, 2, -128), 0);
    assert_eq!(degree_to_midi(RootNote::B, Scale::MinorPentatonic, 9, i8::MIN), 0);
    assert_eq!(degree_to_midi(RootNote::B, Scale::MinorPentatonic, 9, i8::MAX), 127);
}
