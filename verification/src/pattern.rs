//! Pitch generation for the five pattern styles of a 16-step bar.
//!
//! A style makes random choices at some steps. The caller draws them in step order
//! and hands them over aligned with the steps: either a uniform roll on [0, 1),
//! carried exactly as its numerator over 2^24 (the resolution of an `f32` draw), or a
//! scale degree picked by weight. Which steps draw, and what each choice means, is
//! decided here.

use vstd::prelude::*;
use crate::scale::{
    RootNote,
    Scale,
    scale_intervals,
    clamp_midi,
    degree_pitch,
    root_pitch,
    fifth_degree,
    root_midi_note,
    fifth_midi_note,
    degree_to_midi,
};

verus! {

/// Number of steps in a pattern.
pub const NUM_STEPS: usize = 16;

/// Denominator of a roll: a roll `r` stands for the draw `r / 2^24` on [0, 1).
pub const ROLL_DENOMINATOR: u32 = 16777216;

/// Rolls below this pick the fifth in the second half of a root-pulse bar
/// (the draws below 0.15 as an `f32`).
pub const ROOT_PULSE_FIFTH_BELOW: u32 = 2516583;

/// Rolls below this (and not below the fifth's bound) pick the flat second in the second
/// half of a root-pulse bar (the draws below 0.25).
pub const ROOT_PULSE_FLAT2_BELOW: u32 = 4194304;

/// Rolls below this pick the fifth off the downbeats of a rolling bar (the draws below 0.1).
pub const ROLLING_FIFTH_BELOW: u32 = 1677722;

/// Rolls below this (and not below the fifth's bound) drop a semitone under the root
/// off the downbeats of a rolling bar (the draws below 0.15).
pub const ROLLING_DROP_BELOW: u32 = 2516583;

/// Rolls below this switch octave after a hit of an octave-bounce bar (the draws below 0.8).
pub const BOUNCE_SWITCH_BELOW: u32 = 13421773;

/// The five pattern styles.
#[derive(Debug, Clone, Copy, PartialEq, Eq, Structural)]
pub enum PatternType {
    RootPulse,
    Syncopated,
    Rolling16th,
    PhrygianDrop,
    OctaveBounce,
}

/// Whether step `i` of a bar with the given rhythm makes a random choice in the style.
/// Syncopated bars pick a weighted scale degree; the other styles roll.
pub open spec fn draws_at(pattern_type: PatternType, rhythm: Seq<bool>, i: int) -> bool {
    match pattern_type {
        PatternType::RootPulse => 8 <= i < 16,
        PatternType::Syncopated => rhythm[i] && i % 4 != 0,
        PatternType::Rolling16th => 0 <= i < 16,
        PatternType::PhrygianDrop => false,
        PatternType::OctaveBounce => rhythm[i],
    }
}

/// The steps, in order, at which a bar of the given style and rhythm makes a random
/// choice; the caller draws one choice per marked step, in step order.
pub fn draws_needed(pattern_type: PatternType, rhythm: &[bool; 16]) -> (needed: [bool; 16])
    ensures
        forall|i: int| 0 <= i < 16 ==> needed[i] == draws_at(pattern_type, rhythm@, i),
{
    let mut needed = [false; 16];
    for i in 0..16usize
        invariant
            forall|j: int| 0 <= j < i ==> needed[j] == draws_at(pattern_type, rhythm@, j),
            forall|j: int| i <= j < 16 ==> !needed[j],
    {
        needed[i] = match pattern_type {
            PatternType::RootPulse => i >= 8,
            PatternType::Syncopated => rhythm[i] && i % 4 != 0,
            PatternType::Rolling16th => true,
            PatternType::PhrygianDrop => false,
            PatternType::OctaveBounce => rhythm[i],
        };
    }
    needed
}

/// The pitch of the flat second (degree 1) of the scale.
pub open spec fn flat2_pitch(root: RootNote, scale: Scale, octave: u8) -> u8 {
    clamp_midi(degree_pitch(root, scale, octave, 1))
}

/// The pitch of the fifth of the scale.
pub open spec fn fifth_pitch(root: RootNote, scale: Scale, octave: u8) -> u8 {
    clamp_midi(degree_pitch(root, scale, octave, fifth_degree(scale) as i8))
}

/// Root pulse: the root throughout; in the second half of the bar a roll may turn a
/// step into the fifth or the flat second.
pub open spec fn root_pulse_pitch(
    root: RootNote,
    scale: Scale,
    octave: u8,
    draws: Seq<u32>,
    i: int,
) -> u8 {
    if 8 <= i && draws[i] < ROOT_PULSE_FIFTH_BELOW {
        fifth_pitch(root, scale, octave)
    } else if 8 <= i && draws[i] < ROOT_PULSE_FLAT2_BELOW {
        flat2_pitch(root, scale, octave)
    } else {
        root_pitch(root, octave)
    }
}

/// Syncopated: the root on the downbeats and on silent steps; the other hits take the
/// drawn scale degree.
pub open spec fn syncopated_pitch(
    root: RootNote,
    scale: Scale,
    octave: u8,
    rhythm: Seq<bool>,
    draws: Seq<u32>,
    i: int,
) -> u8 {
    if rhythm[i] && i % 4 != 0 {
        clamp_midi(degree_pitch(root, scale, octave, draws[i] as i8))
    } else {
        root_pitch(root, octave)
    }
}

/// Rolling sixteenths: the root on the downbeats; elsewhere a roll may pick the fifth
/// or a semitone below the root.
pub open spec fn rolling_pitch(root: RootNote, scale: Scale, octave: u8, draws: Seq<u32>, i: int) -> u8 {
    let r = root_pitch(root, octave);
    if i % 4 == 0 {
        r
    } else if draws[i] < ROLLING_FIFTH_BELOW {
        fifth_pitch(root, scale, octave)
    } else if draws[i] < ROLLING_DROP_BELOW {
        if r > 0 {
            (r - 1) as u8
        } else {
            0
        }
    } else {
        r
    }
}

/// Phrygian drop: hits in the tension zones (steps 4..8 and 12..16) take the flat second,
/// everything else the root.
pub open spec fn phrygian_drop_pitch(
    root: RootNote,
    scale: Scale,
    octave: u8,
    rhythm: Seq<bool>,
    i: int,
) -> u8 {
    if rhythm[i] && ((4 <= i < 8) || (12 <= i < 16)) {
        flat2_pitch(root, scale, octave)
    } else {
        root_pitch(root, octave)
    }
}

/// Whether an octave-bounce bar plays its hit at step `i` an octave up: it starts low
/// and, after each hit, switches octave when that hit's roll says so.
pub open spec fn bounce_high(rhythm: Seq<bool>, draws: Seq<u32>, i: int) -> bool
    decreases i,
{
    if i <= 0 {
        false
    } else {
        let before = bounce_high(rhythm, draws, i - 1);
        if rhythm[i - 1] && draws[i - 1] < BOUNCE_SWITCH_BELOW {
            !before
        } else {
            before
        }
    }
}

/// The root an octave up, kept within the MIDI range.
pub open spec fn octave_up(root: u8) -> u8 {
    if root + 12 < 127 {
        (root + 12) as u8
    } else {
        127
    }
}

/// Octave bounce: hits alternate between the root and the root an octave up (a roll
/// may repeat the octave); silent steps keep the root.
pub open spec fn octave_bounce_pitch(
    root: RootNote,
    octave: u8,
    rhythm: Seq<bool>,
    draws: Seq<u32>,
    i: int,
) -> u8 {
    if rhythm[i] && bounce_high(rhythm, draws, i) {
        octave_up(root_pitch(root, octave))
    } else {
        root_pitch(root, octave)
    }
}

/// The pitch of step `i` of a bar.
pub open spec fn step_pitch(
    root: RootNote,
    scale: Scale,
    octave: u8,
    pattern_type: PatternType,
    rhythm: Seq<bool>,
    draws: Seq<u32>,
    i: int,
) -> u8 {
    match pattern_type {
        PatternType::RootPulse => root_pulse_pitch(root, scale, octave, draws, i),
        PatternType::Syncopated => syncopated_pitch(root, scale, octave, rhythm, draws, i),
        PatternType::Rolling16th => rolling_pitch(root, scale, octave, draws, i),
        PatternType::PhrygianDrop => phrygian_drop_pitch(root, scale, octave, rhythm, i),
        PatternType::OctaveBounce => octave_bounce_pitch(root, octave, rhythm, draws, i),
    }
}

/// Whether the draws fit the style: a syncopated bar's drawn degrees are degrees of the
/// scale, as a weighted pick over the scale's pitch weights gives them.
pub open spec fn draws_fit(
    pattern_type: PatternType,
    scale: Scale,
    rhythm: Seq<bool>,
    draws: Seq<u32>,
) -> bool {
    pattern_type == PatternType::Syncopated ==> forall|i: int|
        0 <= i < 16 && draws_at(pattern_type, rhythm, i) ==> draws[i] < scale_intervals(
            scale,
        ).len()
}

/// Whether `i` is the first index of the scale intervals that holds a perfect fifth
/// (7 semitones).
pub open spec fn is_first_fifth(intervals: Seq<u8>, i: int) -> bool {
    &&& 0 <= i < intervals.len()
    &&& intervals[i] == 7
    &&& forall|j: int| 0 <= j < i ==> intervals[j] != 7
}

/// Weight of scale degree `i` in a weighted pick: the first perfect fifth 3, the root 5,
/// every other degree 1.
pub open spec fn pitch_weight(intervals: Seq<u8>, i: int) -> u32 {
    if is_first_fifth(intervals, i) {
        3
    } else if i == 0 && intervals.len() > 0 {
        5
    } else {
        1
    }
}

/// In every scale the root weighs 5, the perfect fifth (found by its 7-semitone
/// interval) weighs 3, and every other degree weighs 1.
pub proof fn lemma_pitch_weights_of_scales(scale: Scale, i: int)
    requires
        0 <= i < scale_intervals(scale).len(),
    ensures
        i == 0 ==> pitch_weight(scale_intervals(scale), i) == 5,
        scale_intervals(scale)[i] == 7 ==> pitch_weight(scale_intervals(scale), i) == 3,
        i != 0 && scale_intervals(scale)[i] != 7 ==> pitch_weight(scale_intervals(scale), i) == 1,
{
    crate::scale::lemma_scale_shape(scale);
    let iv = scale_intervals(scale);
    if iv[i] == 7 {
        assert forall|j: int| 0 <= j < i implies iv[j] != 7 by {
            assert(iv[j] < iv[i]);
        }
        assert(is_first_fifth(iv, i));
    }
}

/// Pitch weights for the scale degrees (root heaviest, the perfect fifth heavy, others
/// light), found by interval value, and the number of degrees in use (at most 12).
pub fn build_pitch_weights(intervals: &[u8]) -> (r: ([u32; 12], usize))
    requires
        forall|i: int| is_first_fifth(intervals@, i) ==> i < 12,
    ensures
        r.1 == if intervals@.len() < 12 { intervals@.len() } else { 12 },
        forall|i: int| 0 <= i < 12 ==> r.0[i] == pitch_weight(intervals@, i),
{
    let len: usize = if intervals.len() < 12 { intervals.len() } else { 12 };
    let mut weights = [1u32; 12];

    if len > 0 {
        weights[0] = 5;
    }
    let mut done = false;
    let mut i: usize = 0;
    while i < intervals.len() && !done
        invariant
            i <= intervals@.len(),
            forall|k: int| is_first_fifth(intervals@, k) ==> k < 12,
            len == if intervals@.len() < 12 { intervals@.len() } else { 12 },
            forall|j: int| 0 <= j < i ==> intervals@[j] != 7,
            done ==> is_first_fifth(intervals@, i as int),
            forall|k: int|
                0 <= k < 12 ==> weights[k] == (if done && k == i {
                    3u32
                } else if k == 0 && intervals@.len() > 0 {
                    5u32
                } else {
                    1u32
                }),
        decreases intervals@.len() - i + (if done { 0int } else { 1int }),
    {
        if intervals[i] == 7 {
            assert(is_first_fifth(intervals@, i as int));
            weights[i] = 3;
            done = true;
        } else {
            i = i + 1;
        }
    }
    proof {
        assert forall|k: int| 0 <= k < 12 implies weights[k] == pitch_weight(intervals@, k) by {
            if is_first_fifth(intervals@, k) {
                if !done {
                    assert(intervals@[k] == 7);
                }
                assert(done);
                if k != i {
                    if k < i {
                        assert(intervals@[k] != 7);
                    } else {
                        assert(intervals@[i as int] == 7);
                    }
                }
            } else if done && k == i {
                assert(is_first_fifth(intervals@, i as int));
            }
        }
    }
    (weights, len)
}

/// Every generated pitch is a MIDI note (at most 127).
pub proof fn lemma_pitches_in_midi_range(
    root: RootNote,
    scale: Scale,
    octave: u8,
    pattern_type: PatternType,
    rhythm: Seq<bool>,
    draws: Seq<u32>,
    i: int,
)
    ensures
        step_pitch(root, scale, octave, pattern_type, rhythm, draws, i) <= 127,
{
}

/// Styles that anchor their downbeats keep the root there: syncopated and rolling bars
/// on every fourth step, root-pulse bars on the whole first half, phrygian-drop bars
/// outside the tension zones.
pub proof fn lemma_anchored_steps_keep_root(
    root: RootNote,
    scale: Scale,
    octave: u8,
    pattern_type: PatternType,
    rhythm: Seq<bool>,
    draws: Seq<u32>,
    i: int,
)
    requires
        0 <= i < 16,
    ensures
        (pattern_type == PatternType::Syncopated || pattern_type == PatternType::Rolling16th) && i
            % 4 == 0 ==> step_pitch(root, scale, octave, pattern_type, rhythm, draws, i)
            == root_pitch(root, octave),
        pattern_type == PatternType::RootPulse && i < 8 ==> step_pitch(
            root,
            scale,
            octave,
            pattern_type,
            rhythm,
            draws,
            i,
        ) == root_pitch(root, octave),
        pattern_type == PatternType::PhrygianDrop && !((4 <= i < 8) || (12 <= i < 16))
            ==> step_pitch(root, scale, octave, pattern_type, rhythm, draws, i) == root_pitch(
            root,
            octave,
        ),
{
}

/// A syncopated bar plays the root on its downbeats and silent steps, and a tone of the
/// scale (one of its degrees in the octave of the root) on every other hit.
pub proof fn lemma_syncopated_plays_scale_tones(
    root: RootNote,
    scale: Scale,
    octave: u8,
    rhythm: Seq<bool>,
    draws: Seq<u32>,
    i: int,
)
    requires
        0 <= i < 16,
        draws_fit(PatternType::Syncopated, scale, rhythm, draws),
    ensures
        (!rhythm[i] || i % 4 == 0) ==> step_pitch(
            root,
            scale,
            octave,
            PatternType::Syncopated,
            rhythm,
            draws,
            i,
        ) == root_pitch(root, octave),
        (rhythm[i] && i % 4 != 0) ==> exists|d: int|
            0 <= d < scale_intervals(scale).len() && step_pitch(
                root,
                scale,
                octave,
                PatternType::Syncopated,
                rhythm,
                draws,
                i,
            ) == clamp_midi(#[trigger] degree_pitch(root, scale, octave, d as i8)),
{
    if rhythm[i] && i % 4 != 0 {
        assert(draws_at(PatternType::Syncopated, rhythm, i));
        crate::scale::lemma_scale_shape(scale);
        let d = draws[i] as int;
        assert(draws[i] as i8 == d as i8);
        assert(0 <= d < scale_intervals(scale).len());
        assert(step_pitch(root, scale, octave, PatternType::Syncopated, rhythm, draws, i)
            == clamp_midi(degree_pitch(root, scale, octave, d as i8)));
    }
}

/// The pitch `semitones` above the root of octave `octave`, clamped to the MIDI range.
pub open spec fn above_root(root: RootNote, octave: u8, semitones: int) -> u8 {
    clamp_midi((octave as int + 1) * 12 + root.semitone() as int + semitones)
}

proof fn lemma_flat2_is_second_interval(root: RootNote, scale: Scale, octave: u8)
    ensures
        flat2_pitch(root, scale, octave) == above_root(root, octave, scale_intervals(scale)[1] as int),
{
    crate::scale::lemma_scale_shape(scale);
    let len = scale_intervals(scale).len() as int;
    vstd::arithmetic::div_mod::lemma_small_mod(1, len as nat);
    vstd::arithmetic::div_mod::lemma_basic_div(1, len);
}

proof fn lemma_fifth_is_seven_above(root: RootNote, scale: Scale, octave: u8)
    ensures
        fifth_pitch(root, scale, octave) == above_root(root, octave, 7),
{
    crate::scale::lemma_fifth_is_seven_semitones(root, scale, octave);
}

/// Root pulse: the first half of the bar is the root; in the second half a roll below
/// `ROOT_PULSE_FIFTH_BELOW` gives the perfect fifth (7 semitones up), a roll below
/// `ROOT_PULSE_FLAT2_BELOW` the second tone of the scale, any other roll the root.
pub proof fn lemma_root_pulse_law(
    root: RootNote,
    scale: Scale,
    octave: u8,
    rhythm: Seq<bool>,
    draws: Seq<u32>,
    i: int,
)
    requires
        0 <= i < 16,
    ensures
        ({
            let p = step_pitch(root, scale, octave, PatternType::RootPulse, rhythm, draws, i);
            &&& i < 8 ==> p == above_root(root, octave, 0)
            &&& 8 <= i && draws[i] < ROOT_PULSE_FIFTH_BELOW ==> p == above_root(root, octave, 7)
            &&& 8 <= i && ROOT_PULSE_FIFTH_BELOW <= draws[i] < ROOT_PULSE_FLAT2_BELOW ==> p
                == above_root(root, octave, scale_intervals(scale)[1] as int)
            &&& 8 <= i && ROOT_PULSE_FLAT2_BELOW <= draws[i] ==> p == above_root(root, octave, 0)
        }),
{
    lemma_fifth_is_seven_above(root, scale, octave);
    lemma_flat2_is_second_interval(root, scale, octave);
}

/// Rolling sixteenths: every fourth step is the root; elsewhere a roll below
/// `ROLLING_FIFTH_BELOW` gives the perfect fifth, a roll below `ROLLING_DROP_BELOW` the
/// semitone under the root (not below MIDI note 0), any other roll the root.
pub proof fn lemma_rolling_law(
    root: RootNote,
    scale: Scale,
    octave: u8,
    rhythm: Seq<bool>,
    draws: Seq<u32>,
    i: int,
)
    requires
        0 <= i < 16,
    ensures
        ({
            let p = step_pitch(root, scale, octave, PatternType::Rolling16th, rhythm, draws, i);
            let r = above_root(root, octave, 0);
            &&& i % 4 == 0 ==> p == r
            &&& i % 4 != 0 && draws[i] < ROLLING_FIFTH_BELOW ==> p == above_root(root, octave, 7)
            &&& i % 4 != 0 && ROLLING_FIFTH_BELOW <= draws[i] < ROLLING_DROP_BELOW ==> p == (if r
                > 0 {
                r - 1
            } else {
                0
            })
            &&& i % 4 != 0 && ROLLING_DROP_BELOW <= draws[i] ==> p == r
        }),
{
    lemma_fifth_is_seven_above(root, scale, octave);
}

/// Phrygian drop: the hits of steps 4..8 and 12..16 take the second tone of the scale,
/// every other step the root.
pub proof fn lemma_phrygian_drop_law(
    root: RootNote,
    scale: Scale,
    octave: u8,
    rhythm: Seq<bool>,
    draws: Seq<u32>,
    i: int,
)
    requires
        0 <= i < 16,
    ensures
        ({
            let p = step_pitch(root, scale, octave, PatternType::PhrygianDrop, rhythm, draws, i);
            &&& rhythm[i] && ((4 <= i < 8) || 12 <= i) ==> p == above_root(
                root,
                octave,
                scale_intervals(scale)[1] as int,
            )
            &&& !(rhythm[i] && ((4 <= i < 8) || 12 <= i)) ==> p == above_root(root, octave, 0)
        }),
{
    lemma_flat2_is_second_interval(root, scale, octave);
}

/// Octave bounce: a silent step is the root.
pub proof fn lemma_octave_bounce_silent_steps(
    root: RootNote,
    scale: Scale,
    octave: u8,
    rhythm: Seq<bool>,
    draws: Seq<u32>,
    i: int,
)
    requires
        0 <= i < 16,
        !rhythm[i],
    ensures
        step_pitch(root, scale, octave, PatternType::OctaveBounce, rhythm, draws, i) == above_root(
            root,
            octave,
            0,
        ),
{
}

/// Octave bounce, for two consecutive hits `i` and `j`: a hit is the root or the root an octave up
/// (not above MIDI note 127); the first hit is low, and after each hit the octave
/// switches exactly when that hit's roll is below `BOUNCE_SWITCH_BELOW`.
pub proof fn lemma_octave_bounce_law(
    root: RootNote,
    scale: Scale,
    octave: u8,
    rhythm: Seq<bool>,
    draws: Seq<u32>,
    i: int,
    j: int,
)
    requires
        0 <= i < j < 16,
        rhythm[i],
        rhythm[j],
        forall|k: int| i < k < j ==> !rhythm[k],
    ensures
        ({
            let low = above_root(root, octave, 0);
            let high = above_root(root, octave, 12);
            let pi = step_pitch(root, scale, octave, PatternType::OctaveBounce, rhythm, draws, i);
            let pj = step_pitch(root, scale, octave, PatternType::OctaveBounce, rhythm, draws, j);
            &&& pi == low || pi == high
            &&& (forall|k: int| 0 <= k < i ==> !rhythm[k]) ==> pi == low
            &&& (pj == pi) == (draws[i] >= BOUNCE_SWITCH_BELOW || low == high)
        }),
{
    lemma_bounce_gap(rhythm, draws, i + 1, j);
    let r = root_pitch(root, octave);
    assert(octave_up(r) == above_root(root, octave, 12));
    if forall|k: int| 0 <= k < i ==> !rhythm[k] {
        lemma_bounce_starts_low(rhythm, draws, i);
    }
}

proof fn lemma_bounce_gap(rhythm: Seq<bool>, draws: Seq<u32>, a: int, j: int)
    requires
        1 <= a <= j,
        forall|k: int| a <= k < j ==> !rhythm[k],
    ensures
        bounce_high(rhythm, draws, j) == bounce_high(rhythm, draws, a),
    decreases j - a,
{
    if a < j {
        lemma_bounce_gap(rhythm, draws, a, j - 1);
    }
}

proof fn lemma_bounce_starts_low(rhythm: Seq<bool>, draws: Seq<u32>, i: int)
    requires
        0 <= i,
        forall|k: int| 0 <= k < i ==> !rhythm[k],
    ensures
        !bounce_high(rhythm, draws, i),
    decreases i,
{
    if i > 0 {
        lemma_bounce_starts_low(rhythm, draws, i - 1);
    }
}

/// Whether two draw sequences agree on every step where the style draws.
pub open spec fn same_draws(
    pattern_type: PatternType,
    rhythm: Seq<bool>,
    draws: Seq<u32>,
    other: Seq<u32>,
) -> bool {
    forall|j: int| 0 <= j < 16 && draws_at(pattern_type, rhythm, j) ==> draws[j] == other[j]
}

/// The octave-bounce alternation reads only the rolls of the hits.
proof fn lemma_bounce_reads_hits(rhythm: Seq<bool>, draws: Seq<u32>, other: Seq<u32>, i: int)
    requires
        same_draws(PatternType::OctaveBounce, rhythm, draws, other),
        i <= 16,
    ensures
        bounce_high(rhythm, draws, i) == bounce_high(rhythm, other, i),
    decreases i,
{
    if i > 0 {
        lemma_bounce_reads_hits(rhythm, draws, other, i - 1);
    }
}

/// A bar reads its draws only at the steps that `draws_needed` marks: draws that agree
/// there give the same pitches.
pub proof fn lemma_pitches_read_only_marked_draws(
    root: RootNote,
    scale: Scale,
    octave: u8,
    pattern_type: PatternType,
    rhythm: Seq<bool>,
    draws: Seq<u32>,
    other: Seq<u32>,
    i: int,
)
    requires
        0 <= i < 16,
        same_draws(pattern_type, rhythm, draws, other),
    ensures
        step_pitch(root, scale, octave, pattern_type, rhythm, draws, i) == step_pitch(
            root,
            scale,
            octave,
            pattern_type,
            rhythm,
            other,
            i,
        ),
{
    if pattern_type == PatternType::OctaveBounce {
        lemma_bounce_reads_hits(rhythm, draws, other, i);
    }
    if pattern_type == PatternType::RootPulse && 8 <= i {
        assert(draws_at(pattern_type, rhythm, i));
    }
    if pattern_type == PatternType::Rolling16th {
        assert(draws_at(pattern_type, rhythm, i));
    }
    if pattern_type == PatternType::Syncopated && rhythm[i] && i % 4 != 0 {
        assert(draws_at(pattern_type, rhythm, i));
    }
}

/// Root pulse: mostly the root, with an occasional fifth or flat second in the second
/// half of the bar.
fn pitch_root_pulse(
    root_note: RootNote,
    scale: Scale,
    octave: u8,
    root: u8,
    draws: &[u32; 16],
) -> (pitches: [u8; 16])
    requires
        root == root_pitch(root_note, octave),
    ensures
        forall|i: int| 0 <= i < 16 ==> pitches[i] == root_pulse_pitch(root_note, scale, octave, draws@, i),
{
    let fifth = fifth_midi_note(root_note, scale, octave);
    let flat2 = degree_to_midi(root_note, scale, octave, 1);

    let mut pitches = [root; 16];
    for i in 8..16usize
        invariant
            8 <= i <= 16,
            root == root_pitch(root_note, octave),
            fifth == fifth_pitch(root_note, scale, octave),
            flat2 == flat2_pitch(root_note, scale, octave),
            forall|j: int| 0 <= j < i ==> pitches[j] == root_pulse_pitch(root_note, scale, octave, draws@, j),
            forall|j: int| i <= j < 16 ==> pitches[j] == root,
    {
        let roll = draws[i];
        if roll < ROOT_PULSE_FIFTH_BELOW {
            pitches[i] = fifth;
        } else if roll < ROOT_PULSE_FLAT2_BELOW {
            pitches[i] = flat2;
        }
    }
    pitches
}

/// Syncopated: the root on the downbeats, drawn scale tones on the other hits.
fn pitch_syncopated(
    root_note: RootNote,
    scale: Scale,
    octave: u8,
    root: u8,
    rhythm: &[bool; 16],
    draws: &[u32; 16],
) -> (pitches: [u8; 16])
    requires
        root == root_pitch(root_note, octave),
        draws_fit(PatternType::Syncopated, scale, rhythm@, draws@),
    ensures
        forall|i: int| 0 <= i < 16 ==> pitches[i] == syncopated_pitch(root_note, scale, octave, rhythm@, draws@, i),
{
    let mut pitches = [root; 16];
    for i in 0..16usize
        invariant
            root == root_pitch(root_note, octave),
            draws_fit(PatternType::Syncopated, scale, rhythm@, draws@),
            forall|j: int| 0 <= j < i ==> pitches[j] == syncopated_pitch(root_note, scale, octave, rhythm@, draws@, j),
            forall|j: int| i <= j < 16 ==> pitches[j] == root,
    {
        if rhythm[i] {
            let is_downbeat = i % 4 == 0;
            if is_downbeat {
                pitches[i] = root;
            } else {
                assert(draws_at(PatternType::Syncopated, rhythm@, i as int));
                let degree = draws[i];
                pitches[i] = degree_to_midi(root_note, scale, octave, degree as i8);
            }
        }
    }
    pitches
}

/// Rolling sixteenths: root-heavy with a little chromatic movement off the downbeats.
fn pitch_rolling(
    root_note: RootNote,
    scale: Scale,
    octave: u8,
    root: u8,
    draws: &[u32; 16],
) -> (pitches: [u8; 16])
    requires
        root == root_pitch(root_note, octave),
    ensures
        forall|i: int| 0 <= i < 16 ==> pitches[i] == rolling_pitch(root_note, scale, octave, draws@, i),
{
    let mut pitches = [root; 16];
    let fifth = fifth_midi_note(root_note, scale, octave);
    for i in 0..16usize
        invariant
            root == root_pitch(root_note, octave),
            fifth == fifth_pitch(root_note, scale, octave),
            forall|j: int| 0 <= j < i ==> pitches[j] == rolling_pitch(root_note, scale, octave, draws@, j),
            forall|j: int| i <= j < 16 ==> pitches[j] == root,
    {
        let roll = draws[i];
        if i % 4 == 0 {
            pitches[i] = root;
        } else if roll < ROLLING_FIFTH_BELOW {
            pitches[i] = fifth;
        } else if roll < ROLLING_DROP_BELOW {
            pitches[i] = root.saturating_sub(1);
        }
    }
    pitches
}

/// Phrygian drop: the flat second on the hits of beats two and four, the root elsewhere.
fn pitch_phrygian_drop(
    root_note: RootNote,
    scale: Scale,
    octave: u8,
    root: u8,
    rhythm: &[bool; 16],
) -> (pitches: [u8; 16])
    requires
        root == root_pitch(root_note, octave),
    ensures
        forall|i: int| 0 <= i < 16 ==> pitches[i] == phrygian_drop_pitch(root_note, scale, octave, rhythm@, i),
{
    let flat2 = degree_to_midi(root_note, scale, octave, 1);
    let mut pitches = [root; 16];
    for i in 0..16usize
        invariant
            root == root_pitch(root_note, octave),
            flat2 == flat2_pitch(root_note, scale, octave),
            forall|j: int| 0 <= j < i ==> pitches[j] == phrygian_drop_pitch(root_note, scale, octave, rhythm@, j),
            forall|j: int| i <= j < 16 ==> pitches[j] == root,
    {
        if rhythm[i] {
            let in_tension_zone = (4 <= i && i < 8) || (12 <= i && i < 16);
            if in_tension_zone {
                pitches[i] = flat2;
            }
        }
    }
    pitches
}

/// Octave bounce: hits alternate between the root and an octave up, occasionally
/// hitting the same octave twice.
fn pitch_octave_bounce(
    root_note: RootNote,
    octave: u8,
    root: u8,
    rhythm: &[bool; 16],
    draws: &[u32; 16],
) -> (pitches: [u8; 16])
    requires
        root == root_pitch(root_note, octave),
    ensures
        forall|i: int| 0 <= i < 16 ==> pitches[i] == octave_bounce_pitch(root_note, octave, rhythm@, draws@, i),
{
    let root_high: u8 = if (root as u16 + 12) < 127 { root + 12 } else { 127 };
    let mut pitches = [root; 16];
    let mut use_high = false;
    for i in 0..16usize
        invariant
            root == root_pitch(root_note, octave),
            root_high == octave_up(root),
            use_high == bounce_high(rhythm@, draws@, i as int),
            forall|j: int| 0 <= j < i ==> pitches[j] == octave_bounce_pitch(root_note, octave, rhythm@, draws@, j),
            forall|j: int| i <= j < 16 ==> pitches[j] == root,
    {
        if rhythm[i] {
            pitches[i] = if use_high { root_high } else { root };
            if draws[i] < BOUNCE_SWITCH_BELOW {
                use_high = !use_high;
            }
        }
    }
    pitches
}

/// The pitches of a bar of the given style over the given rhythm, from the caller's
/// draws (one per step that `draws_needed` marks, aligned with the steps; the other
/// entries are not read).
pub fn generate_pitches(
    root_note: RootNote,
    scale: Scale,
    octave: u8,
    pattern_type: PatternType,
    rhythm: &[bool; 16],
    draws: &[u32; 16],
) -> (pitches: [u8; 16])
    requires
        draws_fit(pattern_type, scale, rhythm@, draws@),
    ensures
        forall|i: int|
            0 <= i < 16 ==> pitches[i] == step_pitch(
                root_note,
                scale,
                octave,
                pattern_type,
                rhythm@,
                draws@,
                i,
            ),
{
    let root = root_midi_note(root_note, octave);
    match pattern_type {
        PatternType::RootPulse => pitch_root_pulse(root_note, scale, octave, root, draws),
        PatternType::Syncopated => pitch_syncopated(root_note, scale, octave, root, rhythm, draws),
        PatternType::Rolling16th => pitch_rolling(root_note, scale, octave, root, draws),
        PatternType::PhrygianDrop => pitch_phrygian_drop(root_note, scale, octave, root, rhythm),
        PatternType::OctaveBounce => pitch_octave_bounce(root_note, octave, root, rhythm, draws),
    }
}

} // verus!
