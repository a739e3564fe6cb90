//! Root notes, minor-flavoured scales and the mapping from scale degrees to MIDI notes.

use vstd::prelude::*;

verus! {

/// The twelve pitch classes a bassline can be rooted on.
#[derive(Debug, Clone, Copy, PartialEq, Eq, Structural)]
pub enum RootNote {
    C,
    CSharp,
    D,
    DSharp,
    E,
    F,
    FSharp,
    G,
    GSharp,
    A,
    ASharp,
    B,
}

impl RootNote {
    /// Semitones of this pitch class above C.
    pub open spec fn semitone(self) -> u8 {
        match self {
            RootNote::C => 0,
            RootNote::CSharp => 1,
            RootNote::D => 2,
            RootNote::DSharp => 3,
            RootNote::E => 4,
            RootNote::F => 5,
            RootNote::FSharp => 6,
            RootNote::G => 7,
            RootNote::GSharp => 8,
            RootNote::A => 9,
            RootNote::ASharp => 10,
            RootNote::B => 11,
        }
    }

    /// Semitones of this pitch class above C (0 for C up to 11 for B).
    pub fn midi_offset(self) -> (offset: u8)
        ensures
            offset == self.semitone(),
            offset < 12,
    {
        match self {
            RootNote::C => 0,
            RootNote::CSharp => 1,
            RootNote::D => 2,
            RootNote::DSharp => 3,
            RootNote::E => 4,
            RootNote::F => 5,
            RootNote::FSharp => 6,
            RootNote::G => 7,
            RootNote::GSharp => 8,
            RootNote::A => 9,
            RootNote::ASharp => 10,
            RootNote::B => 11,
        }
    }
}

/// The scales a bassline can draw its pitches from.
#[derive(Debug, Clone, Copy, PartialEq, Eq, Structural)]
pub enum Scale {
    Phrygian,
    NaturalMinor,
    HarmonicMinor,
    MinorPentatonic,
    Dorian,
}

/// Semitone intervals above the root of each scale, ascending within one octave.
pub open spec fn scale_intervals(scale: Scale) -> Seq<u8> {
    match scale {
        Scale::Phrygian => seq![0u8, 1, 3, 5, 7, 8, 10],
        Scale::NaturalMinor => seq![0u8, 2, 3, 5, 7, 8, 10],
        Scale::HarmonicMinor => seq![0u8, 2, 3, 5, 7, 8, 11],
        Scale::MinorPentatonic => seq![0u8, 3, 5, 7, 10],
        Scale::Dorian => seq![0u8, 2, 3, 5, 7, 9, 10],
    }
}

impl Scale {
    /// Semitone intervals from the root for this scale.
    pub fn intervals(self) -> (intervals: &'static [u8])
        ensures
            intervals@ == scale_intervals(self),
    {
        match self {
            Scale::Phrygian => &[0, 1, 3, 5, 7, 8, 10],
            Scale::NaturalMinor => &[0, 2, 3, 5, 7, 8, 10],
            Scale::HarmonicMinor => &[0, 2, 3, 5, 7, 8, 11],
            Scale::MinorPentatonic => &[0, 3, 5, 7, 10],
            Scale::Dorian => &[0, 2, 3, 5, 7, 9, 10],
        }
    }
}

/// Truncating division as the processor performs it, expressed against floor division:
/// for a non-negative numerator it is floor division, and for a negative one the
/// numerator shifted down by `len - 1` truncates to the floor of the unshifted quotient.
proof fn lemma_floor_division(degree: int, len: int, q: int)
    requires
        0 < len <= 7,
        -128 <= degree < 128,
        degree >= 0 ==> q == degree / len,
        degree < 0 ==> q == -((-(degree - len + 1)) / len),
    ensures
        q == degree / len,
{
    if degree < 0 {
        let m = -(degree - len + 1);
        assert(m > 0);
        vstd::arithmetic::div_mod::lemma_fundamental_div_mod(m, len);
        vstd::arithmetic::div_mod::lemma_fundamental_div_mod(degree, len);
        let qm = m / len;
        let rm = m % len;
        let qd = degree / len;
        let rd = degree % len;
        assert(m == qm * len + rm && 0 <= rm < len);
        assert(degree == qd * len + rd && 0 <= rd < len);
        assert(-qm == qd) by (nonlinear_arith)
            requires
                m == qm * len + rm,
                0 <= rm < len,
                degree == qd * len + rd,
                0 <= rd < len,
                m == -(degree - len + 1),
                len > 0,
        ;
    }
}

/// Clamps a pitch to the MIDI note range 0..=127.
pub open spec fn clamp_midi(n: int) -> u8 {
    if n < 0 {
        0
    } else if n > 127 {
        127
    } else {
        n as u8
    }
}

/// Unclamped pitch of scale degree `degree` above the root of octave `octave`.
/// Degrees past the end of the scale wrap into the octaves above, negative degrees
/// into the octaves below.
pub open spec fn degree_pitch(root: RootNote, scale: Scale, octave: u8, degree: i8) -> int {
    let iv = scale_intervals(scale);
    let len = iv.len() as int;
    (octave as int + 1) * 12 + root.semitone() as int + iv[degree as int % len] as int + (degree
        as int / len) * 12
}

/// Resolves a scale degree to a MIDI note number; `degree` may lie outside the
/// scale, wrapping into other octaves. The result is clamped to 0..=127.
pub fn degree_to_midi(root: RootNote, scale: Scale, octave: u8, degree: i8) -> (note: u8)
    ensures
        note == clamp_midi(degree_pitch(root, scale, octave, degree)),
        note <= 127,
{
    let intervals = scale.intervals();
    let len = intervals.len() as i8;
    let wide_degree: i16 = degree as i16;
    let wide_len: i16 = len as i16;

    let octave_offset: i16 = if wide_degree >= 0 {
        wide_degree / wide_len
    } else {
        (wide_degree - wide_len + 1) / wide_len
    };
    assert(octave_offset as int == degree as int / len as int) by {
        lemma_floor_division(degree as int, len as int, octave_offset as int);
    }
    let index = match degree.checked_rem_euclid(len) {
        Some(r) => r as usize,
        None => 0,
    };

    let base: i16 = (octave as i16 + 1) * 12 + root.midi_offset() as i16;
    let note: i16 = base + intervals[index] as i16 + octave_offset * 12;

    let clamped: i16 = if note < 0 {
        0
    } else if note > 127 {
        127
    } else {
        note
    };
    clamped as u8
}

/// Pitch of the root of octave `octave`, clamped to the top of the MIDI range.
pub open spec fn root_pitch(root: RootNote, octave: u8) -> u8 {
    clamp_midi((octave as int + 1) * 12 + root.semitone() as int)
}

/// Returns the root MIDI note for a given root and octave (octave 2 of C is 36).
pub fn root_midi_note(root: RootNote, octave: u8) -> (note: u8)
    ensures
        note == root_pitch(root, octave),
        note <= 127,
{
    let note: u16 = (octave as u16 + 1) * 12 + root.midi_offset() as u16;
    if note < 127 {
        note as u8
    } else {
        127
    }
}

/// Index of the first interval of exactly 7 semitones (the perfect fifth) in a scale,
/// or 4 when the scale has none.
pub open spec fn fifth_degree(scale: Scale) -> int {
    let iv = scale_intervals(scale);
    if exists|k: int| 0 <= k < iv.len() && iv[k] == 7 {
        choose|k: int|
            0 <= k < iv.len() && iv[k] == 7 && forall|j: int| 0 <= j < k ==> iv[j] != 7
    } else {
        4
    }
}

/// Returns the MIDI note of the perfect fifth (7 semitones) above the root; the fifth
/// is found by its interval, not by a fixed degree index.
pub fn fifth_midi_note(root: RootNote, scale: Scale, octave: u8) -> (note: u8)
    ensures
        note == clamp_midi(degree_pitch(root, scale, octave, fifth_degree(scale) as i8)),
        note <= 127,
{
    let intervals = scale.intervals();
    let mut position: usize = 4;
    let mut found = false;
    let mut i: usize = 0;
    while i < intervals.len() && !found
        invariant
            intervals@ == scale_intervals(scale),
            i <= intervals@.len(),
            !found ==> position == 4,
            found ==> position == i && i < intervals@.len() && intervals@[i as int] == 7,
            forall|j: int| 0 <= j < i ==> intervals@[j] != 7,
        decreases intervals@.len() - i + (if found { 0int } else { 1int }),
    {
        if intervals[i] == 7 {
            position = i;
            found = true;
        } else {
            i = i + 1;
        }
    }
    proof {
        let iv = scale_intervals(scale);
        if exists|k: int| 0 <= k < iv.len() && iv[k] == 7 {
            let k0 = choose|k: int| 0 <= k < iv.len() && iv[k] == 7;
            assert(found);
            let c = choose|k: int|
                0 <= k < iv.len() && iv[k] == 7 && forall|j: int| 0 <= j < k ==> iv[j] != 7;
            assert(0 <= i < iv.len() && iv[i as int] == 7 && forall|j: int|
                0 <= j < i ==> iv[j] != 7);
            assert(0 <= c < iv.len() && iv[c] == 7 && forall|j: int| 0 <= j < c ==> iv[j] != 7);
            assert(c == i as int);
        }
    }
    degree_to_midi(root, scale, octave, position as i8)
}

/// Every scale starts at the root, climbs strictly, and stays within one octave.
pub proof fn lemma_scale_shape(scale: Scale)
    ensures
        scale_intervals(scale).len() == 5 || scale_intervals(scale).len() == 7,
        scale_intervals(scale)[0] == 0,
        forall|a: int, b: int|
            0 <= a < b < scale_intervals(scale).len() ==> scale_intervals(scale)[a]
                < scale_intervals(scale)[b],
        forall|a: int| 0 <= a < scale_intervals(scale).len() ==> scale_intervals(scale)[a] < 12,
{
}

/// Degree 0 is the root: `degree_to_midi` of degree 0 gives `root_midi_note`.
pub proof fn lemma_degree_zero_is_root(root: RootNote, scale: Scale, octave: u8)
    ensures
        clamp_midi(degree_pitch(root, scale, octave, 0)) == root_pitch(root, octave),
{
    lemma_scale_shape(scale);
    let len = scale_intervals(scale).len() as int;
    vstd::arithmetic::div_mod::lemma_small_mod(0, len as nat);
    vstd::arithmetic::div_mod::lemma_div_of0(len);
}

/// Stepping a whole scale length up the degrees moves exactly one octave up.
pub proof fn lemma_degree_octave_wrap(root: RootNote, scale: Scale, octave: u8, degree: i8)
    requires
        degree as int + scale_intervals(scale).len() <= 127,
    ensures
        degree_pitch(root, scale, octave, (degree as int + scale_intervals(scale).len()) as i8)
            == degree_pitch(root, scale, octave, degree) + 12,
{
    lemma_scale_shape(scale);
    let len = scale_intervals(scale).len() as int;
    let d = degree as int;
    vstd::arithmetic::div_mod::lemma_fundamental_div_mod(d, len);
    let q = d / len;
    let r = d % len;
    vstd::arithmetic::div_mod::lemma_mod_bound(d, len);
    assert(d + len == (q + 1) * len + r) by (nonlinear_arith)
        requires
            d == len * q + r,
    ;
    vstd::arithmetic::div_mod::lemma_fundamental_div_mod_converse(d + len, len, q + 1, r);
}

/// Higher scale degrees give higher pitches (before clamping to the MIDI range).
pub proof fn lemma_degree_pitch_increasing(
    root: RootNote,
    scale: Scale,
    octave: u8,
    lower: i8,
    higher: i8,
)
    requires
        lower < higher,
    ensures
        degree_pitch(root, scale, octave, lower) < degree_pitch(root, scale, octave, higher),
{
    lemma_scale_shape(scale);
    let iv = scale_intervals(scale);
    let len = iv.len() as int;
    let a = lower as int;
    let b = higher as int;
    vstd::arithmetic::div_mod::lemma_fundamental_div_mod(a, len);
    vstd::arithmetic::div_mod::lemma_fundamental_div_mod(b, len);
    vstd::arithmetic::div_mod::lemma_mod_bound(a, len);
    vstd::arithmetic::div_mod::lemma_mod_bound(b, len);
    let qa = a / len;
    let qb = b / len;
    let ra = a % len;
    let rb = b % len;
    assert(qa <= qb) by {
        vstd::arithmetic::div_mod::lemma_div_is_ordered(a, b, len);
    }
    if qa == qb {
        assert(ra < rb) by (nonlinear_arith)
            requires
                a == len * qa + ra,
                b == len * qb + rb,
                qa == qb,
                a < b,
        ;
        assert(iv[ra] < iv[rb]);
    } else {
        assert(iv[ra] < 12 && iv[rb] >= 0);
        assert(qb * 12 >= qa * 12 + 12) by (nonlinear_arith)
            requires
                qa < qb,
        ;
    }
}

/// The fifth found by interval lies a perfect fifth (7 semitones) above the root in
/// every scale.
pub proof fn lemma_fifth_is_seven_semitones(root: RootNote, scale: Scale, octave: u8)
    ensures
        degree_pitch(root, scale, octave, fifth_degree(scale) as i8) == (octave as int + 1) * 12
            + root.semitone() as int + 7,
{
    let iv = scale_intervals(scale);
    let k: int = if scale == Scale::MinorPentatonic { 3 } else { 4 };
    assert(0 <= k < iv.len() && iv[k] == 7 && forall|j: int| 0 <= j < k ==> iv[j] != 7);
    let c = fifth_degree(scale);
    assert(0 <= c < iv.len() && iv[c] == 7 && forall|j: int| 0 <= j < c ==> iv[j] != 7);
    assert(c == k) by {
        if c < k {
            assert(iv[c] != 7);
        }
        if k < c {
            assert(iv[k] != 7);
        }
    }
    let len = iv.len() as int;
    vstd::arithmetic::div_mod::lemma_small_mod(k as nat, len as nat);
    vstd::arithmetic::div_mod::lemma_basic_div(k, len);
}

} // verus!
