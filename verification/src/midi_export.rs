//! Standard MIDI File export of a pattern: the event track of one bar, and its
//! encoding as the bytes of a single-track file.

use vstd::prelude::*;

verus! {

/// MIDI ticks per quarter note in exported files.
pub const TICKS_PER_QUARTER: u16 = 480;

/// MIDI ticks per step (a sixteenth note).
pub const TICKS_PER_STEP: u32 = 120;

/// MIDI channel of the exported notes.
pub const MIDI_CHANNEL: u8 = 0;

/// Number of steps in an exported bar.
pub const EXPORT_STEPS: usize = 16;

/// Most events a track may hold for its encoding to be owed: each exported event takes
/// at most 10 bytes in the file, so the track chunk stays within its 32-bit length.
pub const MAX_TRACK_EVENTS: usize = 268435456;

/// What the exporter reads of a pattern step, as MIDI integers.
#[derive(Debug, Clone, Copy, PartialEq, Eq, Structural)]
pub struct ExportStep {
    pub active: bool,
    pub note: u8,
    /// The step's velocity times 127, rounded; the exporter clamps it to 1..=127.
    pub velocity_rounded: i32,
    /// The step's gate times the ticks of a step, rounded; the exporter clamps it to
    /// 1..=TICKS_PER_STEP.
    pub gate_ticks_rounded: u32,
}

/// One event of the exported track; `delta` is in ticks since the previous event.
#[derive(Debug, Clone, Copy, PartialEq, Eq, Structural)]
pub enum MidiEvent {
    Tempo { delta: u32, micros_per_beat: u32 },
    NoteOn { delta: u32, key: u8, velocity: u8 },
    NoteOff { delta: u32, key: u8, velocity: u8 },
    EndOfTrack { delta: u32 },
}

/// The error type of `std::io`, carried through by an export that fails.
#[verifier::external_type_specification]
#[verifier::external_body]
pub struct ExIoError(std::io::Error);

/// midly's track event, built from the exported events and handed to its encoder.
#[verifier::external_type_specification]
#[verifier::external_body]
pub struct ExTrackEvent<'a>(midly::TrackEvent<'a>);

/// Error of an export.
#[derive(Debug)]
pub enum ExportError {
    Io(std::io::Error),
}

impl From<std::io::Error> for ExportError {
    fn from(e: std::io::Error) -> (r: Self) {
        ExportError::Io(e)
    }
}

impl vstd::std_specs::convert::FromSpecImpl<std::io::Error> for ExportError {
    open spec fn obeys_from_spec() -> bool {
        true
    }

    open spec fn from_spec(e: std::io::Error) -> ExportError {
        ExportError::Io(e)
    }
}

impl ExportError {
    /// The message of the error: `I/O error: ` followed by the message of the I/O error.
    pub fn to_string(&self) -> (message: String)
        ensures
            match self {
                ExportError::Io(e) => exists|m: String|
                    vstd::string::to_string_from_display_ensures::<std::io::Error>(e, m)
                        && message@ == "I/O error: "@ + m@,
            },
    {
        match self {
            ExportError::Io(e) => {
                let detail = e.to_string();
                let message = String::from_str("I/O error: ").concat(detail.as_str());
                message
            },
        }
    }
}

/// Note-on velocity of an active step, 1..=127.
pub open spec fn export_velocity(step: ExportStep) -> u8 {
    if step.velocity_rounded < 1 {
        1
    } else if step.velocity_rounded > 127 {
        127
    } else {
        step.velocity_rounded as u8
    }
}

/// Gate length in ticks of an active step.
pub open spec fn gate_ticks(step: ExportStep) -> u32 {
    if step.gate_ticks_rounded < 1 {
        1
    } else if step.gate_ticks_rounded > TICKS_PER_STEP {
        TICKS_PER_STEP
    } else {
        step.gate_ticks_rounded
    }
}

/// The events of the first `k` steps, and the silence (in ticks) left over after them.
/// An active step sounds its note for its gate, then leaves the rest of the step
/// silent; an inactive step adds a whole step of silence.
pub open spec fn steps_events(steps: Seq<ExportStep>, k: nat) -> (Seq<MidiEvent>, nat)
    decreases k,
{
    if k == 0 {
        (Seq::empty(), 0)
    } else {
        let before = steps_events(steps, (k - 1) as nat);
        let step = steps[k - 1];
        if step.active {
            let gate = gate_ticks(step);
            (
                before.0 + seq![
                    MidiEvent::NoteOn { delta: before.1 as u32, key: step.note, velocity: export_velocity(step) },
                    MidiEvent::NoteOff { delta: gate, key: step.note, velocity: 0 },
                ],
                (TICKS_PER_STEP - gate) as nat,
            )
        } else {
            (before.0, before.1 + TICKS_PER_STEP as nat)
        }
    }
}

/// The exported track: the tempo at tick 0, the notes of the 16 steps, and the
/// end of track after the trailing silence.
pub open spec fn track_events(steps: Seq<ExportStep>, micros_per_beat: u32) -> Seq<MidiEvent> {
    let body = steps_events(steps, 16);
    seq![MidiEvent::Tempo { delta: 0, micros_per_beat }] + body.0 + seq![
        MidiEvent::EndOfTrack { delta: body.1 as u32 },
    ]
}

/// The delta (in ticks) of an event.
pub open spec fn event_delta(e: MidiEvent) -> int {
    match e {
        MidiEvent::Tempo { delta, .. } => delta as int,
        MidiEvent::NoteOn { delta, .. } => delta as int,
        MidiEvent::NoteOff { delta, .. } => delta as int,
        MidiEvent::EndOfTrack { delta } => delta as int,
    }
}

/// The total length in ticks of a sequence of events.
pub open spec fn total_ticks(events: Seq<MidiEvent>) -> int
    decreases events.len(),
{
    if events.len() == 0 {
        0
    } else {
        total_ticks(events.drop_last()) + event_delta(events.last())
    }
}

/// Number of active steps among the first `k`.
pub open spec fn active_steps(steps: Seq<ExportStep>, k: nat) -> nat
    decreases k,
{
    if k == 0 {
        0
    } else {
        active_steps(steps, (k - 1) as nat) + if steps[k - 1].active {
            1nat
        } else {
            0nat
        }
    }
}

proof fn lemma_total_ticks_concat(a: Seq<MidiEvent>, b: Seq<MidiEvent>)
    ensures
        total_ticks(a + b) == total_ticks(a) + total_ticks(b),
    decreases b.len(),
{
    if b.len() == 0 {
        assert(a + b =~= a);
    } else {
        lemma_total_ticks_concat(a, b.drop_last());
        assert((a + b).drop_last() =~= a + b.drop_last());
    }
}

/// The events of the first `k` steps and their trailing silence span exactly `k` steps,
/// and there are two events per active step.
proof fn lemma_steps_events_shape(steps: Seq<ExportStep>, k: nat)
    requires
        k <= 16,
    ensures
        total_ticks(steps_events(steps, k).0) + steps_events(steps, k).1 == TICKS_PER_STEP * k,
        steps_events(steps, k).0.len() == 2 * active_steps(steps, k),
        steps_events(steps, k).1 <= TICKS_PER_STEP * k,
    decreases k,
{
    if k > 0 {
        lemma_steps_events_shape(steps, (k - 1) as nat);
        let before = steps_events(steps, (k - 1) as nat);
        let step = steps[k - 1];
        if step.active {
            let gate = gate_ticks(step);
            let pair = seq![
                MidiEvent::NoteOn { delta: before.1 as u32, key: step.note, velocity: export_velocity(step) },
                MidiEvent::NoteOff { delta: gate, key: step.note, velocity: 0 },
            ];
            lemma_total_ticks_concat(before.0, pair);
            assert(pair.drop_last() =~= seq![pair[0]]);
            assert(seq![pair[0]].drop_last() =~= Seq::<MidiEvent>::empty());
            assert(total_ticks(Seq::<MidiEvent>::empty()) == 0);
            assert(total_ticks(seq![pair[0]]) == before.1);
            assert(total_ticks(pair) == before.1 + gate);
            assert(before.1 <= TICKS_PER_STEP * (k - 1));
            assert(before.1 as u32 == before.1);
        }
    }
}

/// An exported bar lasts exactly 16 steps of ticks and holds the tempo, the end of track
/// and two events per active step.
pub proof fn lemma_track_shape(steps: Seq<ExportStep>, micros_per_beat: u32)
    ensures
        total_ticks(track_events(steps, micros_per_beat)) == TICKS_PER_STEP * 16,
        track_events(steps, micros_per_beat).len() == 2 + 2 * active_steps(steps, 16),
        track_events(steps, micros_per_beat)[0] == (MidiEvent::Tempo { delta: 0, micros_per_beat }),
        track_events(steps, micros_per_beat).last() is EndOfTrack,
{
    lemma_steps_events_shape(steps, 16);
    let body = steps_events(steps, 16);
    let head = seq![MidiEvent::Tempo { delta: 0, micros_per_beat }];
    let tail = seq![MidiEvent::EndOfTrack { delta: body.1 as u32 }];
    lemma_total_ticks_concat(head + body.0, tail);
    lemma_total_ticks_concat(head, body.0);
    assert(head.drop_last() =~= Seq::<MidiEvent>::empty());
    assert(tail.drop_last() =~= Seq::<MidiEvent>::empty());
    assert(total_ticks(Seq::<MidiEvent>::empty()) == 0);
    assert(total_ticks(head) == 0);
    assert(total_ticks(tail) == body.1);
}

/// The notes of the active steps among the first `k`, in step order.
pub open spec fn active_step_notes(steps: Seq<ExportStep>, k: nat) -> Seq<u8>
    decreases k,
{
    if k == 0 {
        Seq::empty()
    } else if steps[k - 1].active {
        active_step_notes(steps, (k - 1) as nat).push(steps[k - 1].note)
    } else {
        active_step_notes(steps, (k - 1) as nat)
    }
}

/// Whether the events from `offset + 2 * j` on are the note-on of `key` at a velocity in
/// 1..=127 followed by its note-off (velocity 0) after a gate of 1..=TICKS_PER_STEP ticks.
pub open spec fn is_note_pair(events: Seq<MidiEvent>, offset: int, j: int, key: u8) -> bool {
    &&& events[offset + 2 * j] matches MidiEvent::NoteOn { key: on_key, velocity, .. } && on_key
        == key && 1 <= velocity <= 127
    &&& events[offset + 2 * j + 1] matches MidiEvent::NoteOff { delta, key: off_key, velocity }
        && off_key == key && velocity == 0 && 1 <= delta <= TICKS_PER_STEP
}

proof fn lemma_steps_events_pairs(steps: Seq<ExportStep>, k: nat)
    requires
        k <= 16,
    ensures
        active_step_notes(steps, k).len() == active_steps(steps, k),
        forall|j: int|
            0 <= j < active_steps(steps, k) ==> is_note_pair(
                steps_events(steps, k).0,
                0,
                j,
                #[trigger] active_step_notes(steps, k)[j],
            ),
    decreases k,
{
    if k > 0 {
        lemma_steps_events_shape(steps, (k - 1) as nat);
        lemma_steps_events_pairs(steps, (k - 1) as nat);
        let before = steps_events(steps, (k - 1) as nat);
        let keys = active_step_notes(steps, (k - 1) as nat);
        let step = steps[k - 1];
        if step.active {
            let gate = gate_ticks(step);
            let pair = seq![
                MidiEvent::NoteOn { delta: before.1 as u32, key: step.note, velocity: export_velocity(step) },
                MidiEvent::NoteOff { delta: gate, key: step.note, velocity: 0 },
            ];
            let body = before.0 + pair;
            assert(steps_events(steps, k).0 == body);
            let a = active_steps(steps, (k - 1) as nat) as int;
            assert forall|j: int|
                0 <= j < active_steps(steps, k) implies is_note_pair(
                body,
                0,
                j,
                #[trigger] active_step_notes(steps, k)[j],
            ) by {
                if j < a {
                    assert(active_step_notes(steps, k)[j] == keys[j]);
                    assert(is_note_pair(before.0, 0, j, keys[j]));
                    assert(body[2 * j] == before.0[2 * j]);
                    assert(body[2 * j + 1] == before.0[2 * j + 1]);
                } else {
                    assert(j == a);
                    assert(body[2 * j] == pair[0]);
                    assert(body[2 * j + 1] == pair[1]);
                }
            }
        } else {
            assert(active_step_notes(steps, k) == keys);
        }
    }
}

/// The notes of an exported bar come in pairs, one per active step in step order: the
/// note-on of the step's note at a velocity in 1..=127, then its note-off (on the same
/// key, velocity 0) after a gate of 1..=TICKS_PER_STEP ticks; the tempo comes before
/// them and the end of track after.
pub proof fn lemma_track_notes_pair_up(steps: Seq<ExportStep>, micros_per_beat: u32)
    ensures
        ({
            let t = track_events(steps, micros_per_beat);
            let keys = active_step_notes(steps, 16);
            &&& keys.len() == active_steps(steps, 16)
            &&& t.len() == 2 + 2 * keys.len()
            &&& forall|j: int| 0 <= j < keys.len() ==> is_note_pair(t, 1, j, #[trigger] keys[j])
        }),
{
    lemma_track_shape(steps, micros_per_beat);
    lemma_steps_events_shape(steps, 16);
    lemma_steps_events_pairs(steps, 16);
    let t = track_events(steps, micros_per_beat);
    let body = steps_events(steps, 16).0;
    let keys = active_step_notes(steps, 16);
    assert forall|j: int| 0 <= j < keys.len() implies is_note_pair(t, 1, j, #[trigger] keys[j]) by {
        assert(is_note_pair(body, 0, j, keys[j]));
        assert(t[1 + 2 * j] == body[2 * j]);
        assert(t[1 + 2 * j + 1] == body[2 * j + 1]);
    }
}

/// The indices of the active steps among the first `k`, in step order.
pub open spec fn active_step_indices(steps: Seq<ExportStep>, k: nat) -> Seq<int>
    decreases k,
{
    if k == 0 {
        Seq::empty()
    } else if steps[k - 1].active {
        active_step_indices(steps, (k - 1) as nat).push(k - 1)
    } else {
        active_step_indices(steps, (k - 1) as nat)
    }
}

proof fn lemma_steps_events_timing(steps: Seq<ExportStep>, k: nat)
    requires
        k <= 16,
    ensures
        ({
            let ix = active_step_indices(steps, k);
            let body = steps_events(steps, k).0;
            &&& ix.len() == active_steps(steps, k)
            &&& forall|j: int|
                0 <= j < ix.len() ==> 0 <= #[trigger] ix[j] < k && steps[ix[j]].active
                    && active_step_notes(steps, k)[j] == steps[ix[j]].note && total_ticks(
                    body.take(2 * j + 1),
                ) == TICKS_PER_STEP * ix[j] && body[2 * j] == (MidiEvent::NoteOn {
                    delta: body[2 * j]->NoteOn_delta,
                    key: steps[ix[j]].note,
                    velocity: export_velocity(steps[ix[j]]),
                }) && body[2 * j + 1] == (MidiEvent::NoteOff {
                    delta: gate_ticks(steps[ix[j]]),
                    key: steps[ix[j]].note,
                    velocity: 0,
                })
            &&& forall|a: int, b: int| 0 <= a < b < ix.len() ==> ix[a] < ix[b]
            &&& forall|i: int| 0 <= i < k && steps[i].active ==> ix.contains(i)
        }),
    decreases k,
{
    if k > 0 {
        lemma_steps_events_shape(steps, (k - 1) as nat);
        lemma_steps_events_pairs(steps, (k - 1) as nat);
        lemma_steps_events_timing(steps, (k - 1) as nat);
        let before = steps_events(steps, (k - 1) as nat);
        let ixb = active_step_indices(steps, (k - 1) as nat);
        let ix = active_step_indices(steps, k);
        let step = steps[k - 1];
        let a = active_steps(steps, (k - 1) as nat) as int;
        if step.active {
            let gate = gate_ticks(step);
            let pair = seq![
                MidiEvent::NoteOn { delta: before.1 as u32, key: step.note, velocity: export_velocity(step) },
                MidiEvent::NoteOff { delta: gate, key: step.note, velocity: 0 },
            ];
            let body = before.0 + pair;
            assert(steps_events(steps, k).0 == body);
            assert forall|j: int| 0 <= j < ix.len() implies 0 <= #[trigger] ix[j] < k
                && steps[ix[j]].active && active_step_notes(steps, k)[j] == steps[ix[j]].note
                && total_ticks(body.take(2 * j + 1)) == TICKS_PER_STEP * ix[j] && body[2 * j] == (
                MidiEvent::NoteOn {
                    delta: body[2 * j]->NoteOn_delta,
                    key: steps[ix[j]].note,
                    velocity: export_velocity(steps[ix[j]]),
                }) && body[2 * j + 1] == (MidiEvent::NoteOff {
                    delta: gate_ticks(steps[ix[j]]),
                    key: steps[ix[j]].note,
                    velocity: 0,
                }) by {
                if j < a {
                    assert(ix[j] == ixb[j]);
                    assert(body.take(2 * j + 1) =~= before.0.take(2 * j + 1));
                    assert(body[2 * j] == before.0[2 * j]);
                    assert(body[2 * j + 1] == before.0[2 * j + 1]);
                    assert(active_step_notes(steps, k)[j] == active_step_notes(
                        steps,
                        (k - 1) as nat,
                    )[j]);
                } else {
                    assert(j == a);
                    assert(ix[j] == k - 1);
                    assert(body.take(2 * j + 1) =~= before.0 + seq![pair[0]]);
                    lemma_total_ticks_concat(before.0, seq![pair[0]]);
                    assert(seq![pair[0]].drop_last() =~= Seq::<MidiEvent>::empty());
                    assert(total_ticks(Seq::<MidiEvent>::empty()) == 0);
                    assert(before.1 as u32 == before.1);
                    assert(body[2 * j] == pair[0]);
                    assert(body[2 * j + 1] == pair[1]);
                }
            }
            assert forall|i: int| 0 <= i < k && steps[i].active implies ix.contains(i) by {
                if i < k - 1 {
                    assert(ixb.contains(i));
                    let w = choose|w: int| 0 <= w < ixb.len() && ixb[w] == i;
                    assert(ix[w] == i);
                } else {
                    assert(ix[a] == i);
                }
            }
        } else {
            assert(ix == ixb);
            assert(steps_events(steps, k).0 == before.0);
            assert(active_step_notes(steps, k) == active_step_notes(steps, (k - 1) as nat));
        }
    }
}

/// When each note of an exported bar sounds: the `j`-th note-on belongs to the `j`-th
/// active step in step order (every active step has one) and falls exactly on that
/// step's first tick; it carries the step's note and its velocity clamped to 1..=127,
/// and its note-off follows after the step's gate clamped to 1..=TICKS_PER_STEP ticks.
pub proof fn lemma_track_note_timing(steps: Seq<ExportStep>, micros_per_beat: u32)
    requires
        steps.len() == 16,
    ensures
        ({
            let t = track_events(steps, micros_per_beat);
            let ix = active_step_indices(steps, 16);
            &&& t.len() == 2 + 2 * ix.len()
            &&& forall|i: int| 0 <= i < 16 && steps[i].active ==> ix.contains(i)
            &&& forall|a: int, b: int| 0 <= a < b < ix.len() ==> ix[a] < ix[b]
            &&& forall|j: int|
                0 <= j < ix.len() ==> {
                    let st = steps[#[trigger] ix[j]];
                    let vel = st.velocity_rounded;
                    let g = st.gate_ticks_rounded;
                    &&& 0 <= ix[j] < 16 && st.active
                    &&& total_ticks(t.take(2 * j + 2)) == 120 * ix[j]
                    &&& t[2 * j + 1] is NoteOn
                    &&& t[2 * j + 1]->NoteOn_key == st.note
                    &&& t[2 * j + 1]->NoteOn_velocity == (if vel < 1 {
                        1
                    } else if vel > 127 {
                        127
                    } else {
                        vel
                    })
                    &&& t[2 * j + 2] == (MidiEvent::NoteOff {
                        delta: if g < 1 {
                            1
                        } else if g > 120 {
                            120
                        } else {
                            g
                        },
                        key: st.note,
                        velocity: 0,
                    })
                }
        }),
{
    lemma_track_shape(steps, micros_per_beat);
    lemma_steps_events_shape(steps, 16);
    lemma_steps_events_timing(steps, 16);
    let t = track_events(steps, micros_per_beat);
    let body = steps_events(steps, 16).0;
    let ix = active_step_indices(steps, 16);
    let head = seq![MidiEvent::Tempo { delta: 0, micros_per_beat }];
    assert(head.drop_last() =~= Seq::<MidiEvent>::empty());
    assert(total_ticks(Seq::<MidiEvent>::empty()) == 0);
    assert(total_ticks(head) == 0);
    assert forall|j: int| 0 <= j < ix.len() implies total_ticks(t.take(2 * j + 2)) == 120 * #[trigger] ix[j]
        && t[2 * j + 1] == body[2 * j] && t[2 * j + 2] == body[2 * j + 1] by {
        assert(t.take(2 * j + 2) =~= head + body.take(2 * j + 1));
        lemma_total_ticks_concat(head, body.take(2 * j + 1));
    }
}

/// Builds the event track of a bar: tempo first, then a note-on/note-off pair for each
/// active step (the note-off after the step's gate), then the end of track.
pub fn build_track(steps: &[ExportStep; 16], micros_per_beat: u32) -> (events: Vec<MidiEvent>)
    ensures
        events@ == track_events(steps@, micros_per_beat),
        forall|j: int|
            0 <= j < active_steps(steps@, 16) ==> is_note_pair(
                events@,
                1,
                j,
                #[trigger] active_step_notes(steps@, 16)[j],
            ),
{
    let mut events: Vec<MidiEvent> = Vec::new();
    events.push(MidiEvent::Tempo { delta: 0, micros_per_beat });

    let mut accumulated_delta: u32 = 0;
    for i in 0..16usize
        invariant
            events@ == seq![MidiEvent::Tempo { delta: 0, micros_per_beat }] + steps_events(
                steps@,
                i as nat,
            ).0,
            accumulated_delta == steps_events(steps@, i as nat).1,
            accumulated_delta <= TICKS_PER_STEP * i,
    {
        let step = steps[i];
        if step.active {
            let gate: u32 = if step.gate_ticks_rounded < 1 {
                1
            } else if step.gate_ticks_rounded > TICKS_PER_STEP {
                TICKS_PER_STEP
            } else {
                step.gate_ticks_rounded
            };
            let velocity: u8 = if step.velocity_rounded < 1 {
                1
            } else if step.velocity_rounded > 127 {
                127
            } else {
                step.velocity_rounded as u8
            };
            events.push(
                MidiEvent::NoteOn { delta: accumulated_delta, key: step.note, velocity },
            );
            events.push(MidiEvent::NoteOff { delta: gate, key: step.note, velocity: 0 });
            accumulated_delta = TICKS_PER_STEP - gate;
        } else {
            accumulated_delta = accumulated_delta + TICKS_PER_STEP;
        }
    }

    events.push(MidiEvent::EndOfTrack { delta: accumulated_delta });
    proof {
        lemma_track_notes_pair_up(steps@, micros_per_beat);
    }
    events
}

/// The track event that midly builds for a tempo change to `micros_per_beat`
/// microseconds per quarter note, `delta` ticks after the previous event.
pub uninterp spec fn midly_tempo_event(delta: u32, micros_per_beat: u32) -> midly::TrackEvent<
    'static,
>;

/// The track event that midly builds for a note-on.
pub uninterp spec fn midly_note_on_event(delta: u32, channel: u8, key: u8, velocity: u8) -> midly::TrackEvent<
    'static,
>;

/// The track event that midly builds for a note-off.
pub uninterp spec fn midly_note_off_event(delta: u32, channel: u8, key: u8, velocity: u8) -> midly::TrackEvent<
    'static,
>;

/// The track event that midly builds for the end of a track.
pub uninterp spec fn midly_end_of_track_event(delta: u32) -> midly::TrackEvent<'static>;

/// The bytes that midly writes for a single-track (format 0) Standard MIDI File with
/// `ticks_per_quarter` ticks per quarter note and the given track.
pub uninterp spec fn midly_single_track_file(
    track: Seq<midly::TrackEvent<'static>>,
    ticks_per_quarter: u16,
) -> Seq<u8>;

/// Builds a midly tempo meta event (`TrackEvent` with `MetaMessage::Tempo`). midly's
/// integer constructors `u28::new` and `u24::new` keep the low 28 and 24 bits; the
/// result is a value of the arguments alone.
#[verifier::external_body]
fn tempo_track_event(delta: u32, micros_per_beat: u32) -> (e: midly::TrackEvent<'static>)
    ensures
        e == midly_tempo_event(delta, micros_per_beat),
{
    midly::TrackEvent {
        delta: midly::num::u28::new(delta),
        kind: midly::TrackEventKind::Meta(
            midly::MetaMessage::Tempo(midly::num::u24::new(micros_per_beat)),
        ),
    }
}

/// Builds a midly note-on event (`MidiMessage::NoteOn`; channel kept to its low 4 bits
/// by `u4::new`, key and velocity to their low 7 bits by `u7::new`); a value of the
/// arguments alone.
#[verifier::external_body]
fn note_on_track_event(delta: u32, channel: u8, key: u8, velocity: u8) -> (e: midly::TrackEvent<'static>)
    ensures
        e == midly_note_on_event(delta, channel, key, velocity),
{
    midly::TrackEvent {
        delta: midly::num::u28::new(delta),
        kind: midly::TrackEventKind::Midi {
            channel: midly::num::u4::new(channel),
            message: midly::MidiMessage::NoteOn {
                key: midly::num::u7::new(key),
                vel: midly::num::u7::new(velocity),
            },
        },
    }
}

/// Builds a midly note-off event (`MidiMessage::NoteOff`, with the same masking as the
/// note-on); a value of the arguments alone.
#[verifier::external_body]
fn note_off_track_event(delta: u32, channel: u8, key: u8, velocity: u8) -> (e: midly::TrackEvent<'static>)
    ensures
        e == midly_note_off_event(delta, channel, key, velocity),
{
    midly::TrackEvent {
        delta: midly::num::u28::new(delta),
        kind: midly::TrackEventKind::Midi {
            channel: midly::num::u4::new(channel),
            message: midly::MidiMessage::NoteOff {
                key: midly::num::u7::new(key),
                vel: midly::num::u7::new(velocity),
            },
        },
    }
}

/// Builds a midly end-of-track meta event (`MetaMessage::EndOfTrack`); a value of the
/// argument alone.
#[verifier::external_body]
fn end_of_track_event(delta: u32) -> (e: midly::TrackEvent<'static>)
    ensures
        e == midly_end_of_track_event(delta),
{
    midly::TrackEvent {
        delta: midly::num::u28::new(delta),
        kind: midly::TrackEventKind::Meta(midly::MetaMessage::EndOfTrack),
    }
}

/// Whether a midly event is one that an exported event becomes: a tempo change, a
/// note-on, a note-off or an end of track.
pub open spec fn is_exported_track_event(ev: midly::TrackEvent<'static>) -> bool {
    exists|e: MidiEvent| ev == #[trigger] midly_event(e)
}

/// Encodes a single-track Standard MIDI File with metrical timing through midly's
/// `Smf::write_std`, into memory. When midly reports success, the bytes are those
/// midly writes for this track and timing. midly fails only on a chunk longer than
/// 32 bits can say, on more than 65535 tracks, or on a SysEx, escape or meta payload
/// over 28 bits, and writing into a `Vec` never fails; so a track of at most
/// `MAX_TRACK_EVENTS` tempo, note and end-of-track events (at most 10 bytes each) is
/// encoded. Nothing is stated of when it fails on other tracks.
#[verifier::external_body]
fn write_single_track_file(track: Vec<midly::TrackEvent<'static>>, ticks_per_quarter: u16) -> (r:
    Result<Vec<u8>, std::io::Error>)
    ensures
        r matches Ok(bytes) ==> bytes@ == midly_single_track_file(track@, ticks_per_quarter),
        track@.len() <= MAX_TRACK_EVENTS && (forall|i: int|
            0 <= i < track@.len() ==> is_exported_track_event(#[trigger] track@[i])) ==> r is Ok,
{
    let header = midly::Header::new(
        midly::Format::SingleTrack,
        midly::Timing::Metrical(midly::num::u15::new(ticks_per_quarter)),
    );
    let smf = midly::Smf { header, tracks: vec![track] };
    let mut bytes: Vec<u8> = Vec::new();
    smf.write_std(&mut bytes).map(|()| bytes)
}

/// The midly track event that an exported event becomes.
pub open spec fn midly_event(e: MidiEvent) -> midly::TrackEvent<'static> {
    match e {
        MidiEvent::Tempo { delta, micros_per_beat } => midly_tempo_event(delta, micros_per_beat),
        MidiEvent::NoteOn { delta, key, velocity } => midly_note_on_event(
            delta,
            MIDI_CHANNEL,
            key,
            velocity,
        ),
        MidiEvent::NoteOff { delta, key, velocity } => midly_note_off_event(
            delta,
            MIDI_CHANNEL,
            key,
            velocity,
        ),
        MidiEvent::EndOfTrack { delta } => midly_end_of_track_event(delta),
    }
}

/// The track that `encode_track` hands to midly keeps every event's own fields, in
/// order: a tempo change keeps its delta and tempo, a note-on and a note-off keep their
/// delta, key and velocity on `MIDI_CHANNEL`, an end of track keeps its delta.
pub proof fn lemma_encoded_events_keep_fields(events: Seq<MidiEvent>, i: int)
    requires
        0 <= i < events.len(),
    ensures
        ({
            let track = events.map_values(|e: MidiEvent| midly_event(e));
            &&& track.len() == events.len()
            &&& events[i] matches MidiEvent::Tempo { delta, micros_per_beat } ==> track[i]
                == midly_tempo_event(delta, micros_per_beat)
            &&& events[i] matches MidiEvent::NoteOn { delta, key, velocity } ==> track[i]
                == midly_note_on_event(delta, 0, key, velocity)
            &&& events[i] matches MidiEvent::NoteOff { delta, key, velocity } ==> track[i]
                == midly_note_off_event(delta, 0, key, velocity)
            &&& events[i] matches MidiEvent::EndOfTrack { delta } ==> track[i]
                == midly_end_of_track_event(delta)
        }),
{
}

/// Encodes an event track as the bytes of a single-track Standard MIDI File with
/// `TICKS_PER_QUARTER` ticks per quarter note, its notes on `MIDI_CHANNEL`. Encoding
/// succeeds on every track of at most `MAX_TRACK_EVENTS` events.
pub fn encode_track(events: &Vec<MidiEvent>) -> (r: Result<Vec<u8>, ExportError>)
    ensures
        r matches Ok(bytes) ==> bytes@ == midly_single_track_file(
            events@.map_values(|e: MidiEvent| midly_event(e)),
            TICKS_PER_QUARTER,
        ),
        events@.len() <= MAX_TRACK_EVENTS ==> r is Ok,
{
    let mut track: Vec<midly::TrackEvent<'static>> = Vec::new();
    for i in 0..events.len()
        invariant
            track@ == events@.take(i as int).map_values(|e: MidiEvent| midly_event(e)),
    {
        let event = match events[i] {
            MidiEvent::Tempo { delta, micros_per_beat } => tempo_track_event(
                delta,
                micros_per_beat,
            ),
            MidiEvent::NoteOn { delta, key, velocity } => note_on_track_event(
                delta,
                MIDI_CHANNEL,
                key,
                velocity,
            ),
            MidiEvent::NoteOff { delta, key, velocity } => note_off_track_event(
                delta,
                MIDI_CHANNEL,
                key,
                velocity,
            ),
            MidiEvent::EndOfTrack { delta } => end_of_track_event(delta),
        };
        track.push(event);
        proof {
            assert(events@.take(i + 1) == events@.take(i as int).push(events@[i as int]));
            assert(events@.take(i + 1).map_values(|e: MidiEvent| midly_event(e)) =~= events@.take(
                i as int,
            ).map_values(|e: MidiEvent| midly_event(e)).push(midly_event(events@[i as int])));
        }
    }
    proof {
        assert(events@.take(events@.len() as int) == events@);
        assert forall|i: int| 0 <= i < track@.len() implies is_exported_track_event(
            #[trigger] track@[i],
        ) by {
            assert(track@[i] == midly_event(events@[i]));
        }
    }
    match write_single_track_file(track, TICKS_PER_QUARTER) {
        Ok(bytes) => Ok(bytes),
        Err(e) => Err(ExportError::Io(e)),
    }
}

} // verus!
