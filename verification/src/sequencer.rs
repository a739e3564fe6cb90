//! Transport-driven step sequencer: decides, block by block, which notes start and
//! stop, and keeps track of the notes that are still sounding.
//!
//! The sequencer keeps its two beat positions (the internal clock and the last host
//! beat) as the bit patterns of `f64` values. The floating-point clock arithmetic
//! (samples per beat, step positions, swing and gate lengths) happens in the caller,
//! which hands the sequencer the resulting integers; every decision about state and
//! events is taken here.

use vstd::prelude::*;
use vstd::multiset::Multiset;

verus! {

/// Bit pattern of the beat position `0.0`.
pub const ZERO_BEAT_BITS: u64 = 0;

/// Bit pattern of the beat position `-1.0`, the marker for "no host beat seen yet".
pub const NO_HOST_BEAT_BITS: u64 = 0xBFF0_0000_0000_0000;

/// Number of blocks during which the sequencer watches whether the host beat advances.
pub const TRANSPORT_EVAL_BLOCKS: u32 = 2000;

/// A sounding note that waits for its note-off.
#[derive(Debug, Clone, Copy, PartialEq, Eq, Structural)]
pub struct ActiveNote {
    pub note: u8,
    pub channel: u8,
    /// Absolute sample position at which the note-off fires.
    pub off_sample: u64,
}

/// A note event for the host.
#[derive(Debug, Clone, Copy, PartialEq, Eq, Structural)]
pub enum SeqEvent {
    /// Start `note` at `timing` samples into the block; `velocity_bits` is the bit
    /// pattern of the step's `f32` velocity.
    NoteOn { timing: u32, channel: u8, note: u8, velocity_bits: u32 },
    /// Release `note` at `timing` samples into the block (with velocity zero).
    NoteOff { timing: u32, channel: u8, note: u8 },
}

/// What the sequencer reads of a pattern step.
#[derive(Debug, Clone, Copy, PartialEq, Eq, Structural)]
pub struct SeqStep {
    pub active: bool,
    pub note: u8,
    /// Bit pattern of the step's `f32` velocity, handed on to the note-on.
    pub velocity_bits: u32,
}

/// The clock-derived integers for one block of samples.
pub struct BlockPlan {
    /// The sixteenth that each sample of the block falls on; the step within the bar is
    /// that count modulo 16.
    pub step_at: Vec<usize>,
    /// Delay in samples applied to the odd (off-beat) sixteenths by swing.
    pub swing_delay: u64,
    /// Gate length in samples of each step.
    pub gate_samples: [u64; 16],
}

/// How a block starts.
pub struct BlockStart {
    /// Note-offs to send before anything else in the block.
    pub note_offs: Vec<SeqEvent>,
    /// Bit pattern of the beat position the block starts at, or `None` when the
    /// transport is stopped and the block plays nothing.
    pub start_beat_bits: Option<u64>,
}

/// The state of the sequencer, as plain values.
#[verifier::ext_equal]
pub struct SequencerView {
    pub current_step: Option<usize>,
    pub running: bool,
    pub internal_beat_bits: u64,
    pub active: Seq<ActiveNote>,
    pub samples_processed: u64,
    pub last_host_beat_bits: u64,
    pub host_transport_works: bool,
    pub eval_count: u32,
}

/// The state of a freshly created or reset sequencer.
pub open spec fn fresh_view() -> SequencerView {
    SequencerView {
        current_step: None,
        running: false,
        internal_beat_bits: ZERO_BEAT_BITS,
        active: Seq::empty(),
        samples_processed: 0,
        last_host_beat_bits: NO_HOST_BEAT_BITS,
        host_transport_works: false,
        eval_count: 0,
    }
}

/// The note-off that releases `n` at `timing`.
pub open spec fn note_off_event(n: ActiveNote, timing: u32) -> SeqEvent {
    SeqEvent::NoteOff { timing, channel: n.channel, note: n.note }
}

/// Note-offs releasing `ns`, in order, at `timing`.
pub open spec fn note_offs(ns: Seq<ActiveNote>, timing: u32) -> Seq<SeqEvent> {
    ns.map_values(|n: ActiveNote| note_off_event(n, timing))
}

/// Sweeps the active notes from index `i` on, removing each note that `gone` selects
/// by moving the last note into its slot. Returns the notes that stay, in their final
/// order, and the removed notes, in the order they were removed.
pub open spec fn sweep(notes: Seq<ActiveNote>, i: int, gone: spec_fn(ActiveNote) -> bool) -> (
    Seq<ActiveNote>,
    Seq<ActiveNote>,
)
    decreases notes.len() - i,
{
    if i < 0 || i >= notes.len() {
        (notes, Seq::empty())
    } else if gone(notes[i]) {
        let swapped = notes.update(i, notes.last()).drop_last();
        let rest = sweep(swapped, i, gone);
        (rest.0, seq![notes[i]] + rest.1)
    } else {
        sweep(notes, i + 1, gone)
    }
}

/// Selects the notes with pitch `note` on `channel`.
pub open spec fn same_note(note: u8, channel: u8) -> spec_fn(ActiveNote) -> bool {
    |n: ActiveNote| n.note == note && n.channel == channel
}

/// Selects the notes whose note-off is due at absolute sample `abs`.
pub open spec fn due_at(abs: int) -> spec_fn(ActiveNote) -> bool {
    |n: ActiveNote| n.off_sample <= abs
}

/// Starting a note: release any sounding note of the same pitch on channel 0 at
/// `timing`, send the note-on, and remember the new note with its off time.
pub open spec fn trigger_effect(
    active: Seq<ActiveNote>,
    step: SeqStep,
    timing: u32,
    off_sample: u64,
) -> (Seq<ActiveNote>, Seq<SeqEvent>) {
    let swept = sweep(active, 0, same_note(step.note, 0));
    (
        swept.0.push(ActiveNote { note: step.note, channel: 0, off_sample }),
        note_offs(swept.1, timing).push(
            SeqEvent::NoteOn { timing, channel: 0, note: step.note, velocity_bits: step.velocity_bits },
        ),
    )
}

/// Releasing every note whose off time has come at sample `offset` of a block that
/// starts at absolute sample `base`.
pub open spec fn release_effect(active: Seq<ActiveNote>, offset: u32, base: int) -> (
    Seq<ActiveNote>,
    Seq<SeqEvent>,
) {
    let swept = sweep(active, 0, due_at(base + offset));
    (swept.0, note_offs(swept.1, offset))
}

/// The integers a block is played from, as plain values.
pub struct PlanView {
    pub step_at: Seq<usize>,
    pub steps: Seq<SeqStep>,
    pub swing_delay: u64,
    pub gate_samples: Seq<u64>,
    /// Absolute sample position of the block's first sample.
    pub base: int,
    /// Number of samples in the block.
    pub len: int,
}

/// Sample position within the block at which the note of step `idx`, reached at
/// sample `k`, starts: odd steps are delayed by the swing, and nothing starts past
/// the last sample of the block.
pub open spec fn note_timing(plan: PlanView, k: int, idx: int) -> int {
    let delay = if idx % 2 == 1 { plan.swing_delay as int } else { 0 };
    if k + delay < plan.len - 1 { k + delay } else { plan.len - 1 }
}

/// One sample of a block: a change of step starts the step's note when it is
/// active, then every due note is released.
pub open spec fn sample_effect(
    plan: PlanView,
    k: int,
    current: Option<usize>,
    active: Seq<ActiveNote>,
) -> (Option<usize>, Seq<ActiveNote>, Seq<SeqEvent>) {
    let idx = plan.step_at[k] % 16;
    let new_step = current != Some(idx);
    let step = plan.steps[idx as int];
    let timing = note_timing(plan, k, idx as int);
    let triggered = if new_step && step.active {
        trigger_effect(
            active,
            step,
            timing as u32,
            (plan.base + timing + plan.gate_samples[idx as int]) as u64,
        )
    } else {
        (active, Seq::empty())
    };
    let released = release_effect(triggered.0, k as u32, plan.base);
    (if new_step { Some(idx) } else { current }, released.0, triggered.1 + released.1)
}

/// The first `k` samples of a block.
pub open spec fn block_effect(
    plan: PlanView,
    k: nat,
    current: Option<usize>,
    active: Seq<ActiveNote>,
) -> (Option<usize>, Seq<ActiveNote>, Seq<SeqEvent>)
    decreases k,
{
    if k == 0 {
        (current, active, Seq::empty())
    } else {
        let before = block_effect(plan, (k - 1) as nat, current, active);
        let last = sample_effect(plan, k - 1, before.0, before.1);
        (last.0, last.1, before.2 + last.2)
    }
}

/// The start of a block: the host beat is watched during the first blocks after a
/// reset; a stopped transport releases everything and resets; a transport that starts
/// playing restarts from a clean state; a jump of the host beat while it drives the
/// clock releases everything and resynchronises the internal clock.
///
/// Returns the state after the start, the note-offs to send, and the bit pattern of
/// the beat the block starts at (none when stopped).
pub open spec fn begin_effect(
    m: SequencerView,
    playing: bool,
    host_beat_bits: u64,
    host_advanced: bool,
    host_jumped: bool,
) -> (SequencerView, Seq<SeqEvent>, Option<u64>) {
    let watching = m.eval_count < TRANSPORT_EVAL_BLOCKS;
    let m1 = SequencerView {
        eval_count: if watching {
            (m.eval_count + 1) as u32
        } else {
            m.eval_count
        },
        host_transport_works: m.host_transport_works || (watching && playing && host_advanced),
        ..m
    };
    if !playing {
        (fresh_view(), if m.running { note_offs(m.active, 0) } else { Seq::empty() }, None)
    } else if !m.running {
        let m2 = SequencerView { running: true, ..fresh_view() };
        (m2, Seq::empty(), Some(m2.internal_beat_bits))
    } else if m1.host_transport_works && host_jumped {
        let m2 = SequencerView {
            active: Seq::empty(),
            current_step: None,
            internal_beat_bits: host_beat_bits,
            ..m1
        };
        (m2, note_offs(m1.active, 0), Some(host_beat_bits))
    } else {
        (
            m1,
            Seq::empty(),
            Some(
                if m1.host_transport_works {
                    host_beat_bits
                } else {
                    m1.internal_beat_bits
                },
            ),
        )
    }
}

/// The plan of a block as plain values, for a block starting at absolute sample `base`.
pub open spec fn plan_view(plan: &BlockPlan, steps: &[SeqStep; 16], base: int) -> PlanView {
    PlanView {
        step_at: plan.step_at@,
        steps: steps@,
        swing_delay: plan.swing_delay,
        gate_samples: plan.gate_samples@,
        base,
        len: plan.step_at@.len() as int,
    }
}

/// Whether a plan can be played by a sequencer that has processed `processed` samples:
/// no sample count overflows.
pub open spec fn plan_fits(plan: &BlockPlan, processed: u64) -> bool {
    &&& plan.step_at@.len() <= u32::MAX
    &&& plan.swing_delay + plan.step_at@.len() <= u64::MAX
    &&& forall|i: int|
        0 <= i < 16 ==> processed + plan.step_at@.len() + plan.gate_samples[i] <= u64::MAX
}

/// No two sounding notes share a pitch and a channel.
pub open spec fn unique_notes(active: Seq<ActiveNote>) -> bool {
    forall|a: int, b: int|
        0 <= a < b < active.len() ==> !(active[a].note == active[b].note && active[a].channel
            == active[b].channel)
}

/// Moving the last note into slot `i` and dropping the last slot removes exactly the
/// note at `i`, as a multiset.
proof fn lemma_swap_remove_multiset(notes: Seq<ActiveNote>, i: int)
    requires
        0 <= i < notes.len(),
    ensures
        notes.update(i, notes.last()).drop_last().to_multiset() == notes.to_multiset().remove(
            notes[i],
        ),
{
    broadcast use vstd::seq_lib::group_to_multiset_ensures;
    broadcast use vstd::multiset::group_multiset_axioms;

    let n = notes.len() as int;
    let t = notes.update(i, notes.last());
    assert(t =~= notes.remove(i).insert(i, notes.last()));
    assert(t.to_multiset() =~= notes.to_multiset().remove(notes[i]).insert(notes.last()));
    assert(t.drop_last() =~= t.remove(n - 1));
    assert(t[n - 1] == notes.last());
    assert(t.drop_last().to_multiset() =~= t.to_multiset().remove(notes.last()));
}

/// A sweep splits the notes: the removed ones are exactly selected, the kept ones from
/// index `i` on are not, together they are the notes swept, and a set of notes with
/// distinct pitches keeps them distinct.
pub proof fn lemma_sweep_partition(notes: Seq<ActiveNote>, i: int, gone: spec_fn(ActiveNote) -> bool)
    requires
        0 <= i <= notes.len(),
    ensures
        ({
            let r = sweep(notes, i, gone);
            &&& r.0.to_multiset().add(r.1.to_multiset()) == notes.to_multiset()
            &&& r.0.len() + r.1.len() == notes.len()
            &&& forall|k: int| 0 <= k < r.1.len() ==> gone(r.1[k])
            &&& forall|k: int| i <= k < r.0.len() ==> !gone(r.0[k])
            &&& forall|k: int| 0 <= k < i ==> r.0[k] == notes[k]
            &&& i <= r.0.len()
            &&& unique_notes(notes) ==> unique_notes(r.0)
        }),
    decreases notes.len() - i,
{
    broadcast use vstd::seq_lib::group_to_multiset_ensures;
    broadcast use vstd::multiset::group_multiset_axioms;

    if i >= notes.len() {
        assert(Seq::<ActiveNote>::empty().to_multiset() =~= Multiset::empty());
        assert(notes.to_multiset().add(Multiset::empty()) =~= notes.to_multiset());
    } else if gone(notes[i]) {
        let n = notes.len() as int;
        let swapped = notes.update(i, notes.last()).drop_last();
        lemma_sweep_partition(swapped, i, gone);
        lemma_swap_remove_multiset(notes, i);
        let r = sweep(swapped, i, gone);
        let g = seq![notes[i]] + r.1;
        assert(g.to_multiset() =~= r.1.to_multiset().insert(notes[i])) by {
            vstd::seq_lib::lemma_multiset_commutative(seq![notes[i]], r.1);
            assert(seq![notes[i]].to_multiset() =~= Multiset::empty().insert(notes[i])) by {
                assert(seq![notes[i]] =~= Seq::<ActiveNote>::empty().push(notes[i]));
            }
        }
        assert(notes.to_multiset().count(notes[i]) > 0) by {
            assert(notes.contains(notes[i]));
        }
        assert(r.0.to_multiset().add(r.1.to_multiset()) == swapped.to_multiset());
        assert(r.0.to_multiset().add(g.to_multiset()) =~= r.0.to_multiset().add(
            r.1.to_multiset(),
        ).insert(notes[i]));
        assert(notes.to_multiset().remove(notes[i]).insert(notes[i]) =~= notes.to_multiset());
        assert(r.0.to_multiset().add(g.to_multiset()) =~= notes.to_multiset());
        assert forall|k: int| 0 <= k < g.len() implies gone(g[k]) by {
            if k > 0 {
                assert(g[k] == r.1[k - 1]);
            }
        }
        if unique_notes(notes) {
            assert forall|a: int, b: int|
                0 <= a < b < swapped.len() implies !(swapped[a].note == swapped[b].note
                && swapped[a].channel == swapped[b].channel) by {
                let oa = if a == i { n - 1 } else { a };
                let ob = if b == i { n - 1 } else { b };
                assert(swapped[a] == notes[oa]);
                assert(swapped[b] == notes[ob]);
                if oa < ob {
                } else {
                    assert(ob < oa);
                }
            }
        }
        assert(sweep(notes, i, gone) == (r.0, g));
        assert(r.0.len() + g.len() == notes.len());
        assert forall|k: int| 0 <= k < i implies r.0[k] == notes[k] by {
            assert(r.0[k] == swapped[k]);
        }
    } else {
        lemma_sweep_partition(notes, i + 1, gone);
        let r = sweep(notes, i + 1, gone);
        assert(sweep(notes, i, gone) == r);
        assert(forall|k: int| i <= k < r.0.len() ==> !gone(r.0[k]));
    }
}

/// Stopping the transport releases every sounding note of a running sequencer, resets
/// it, and plays nothing.
pub proof fn lemma_stop_releases_and_resets(
    m: SequencerView,
    host_beat_bits: u64,
    host_advanced: bool,
    host_jumped: bool,
)
    ensures
        ({
            let r = begin_effect(m, false, host_beat_bits, host_advanced, host_jumped);
            &&& r.0 == fresh_view()
            &&& r.2 is None
            &&& r.1 == if m.running { note_offs(m.active, 0) } else { Seq::empty() }
        }),
{
}

/// A transport that starts playing restarts the sequencer from a clean state: no
/// sounding notes, hence no stale note-offs, and the internal clock at beat zero.
pub proof fn lemma_start_is_clean(
    m: SequencerView,
    host_beat_bits: u64,
    host_advanced: bool,
    host_jumped: bool,
)
    requires
        !m.running,
    ensures
        ({
            let r = begin_effect(m, true, host_beat_bits, host_advanced, host_jumped);
            &&& r.0.running
            &&& r.0.active.len() == 0
            &&& r.0.current_step is None
            &&& r.0.samples_processed == 0
            &&& r.1.len() == 0
            &&& r.2 == Some(ZERO_BEAT_BITS)
        }),
{
}

/// While the sequencer runs and the transport plays, a block starts at the host beat
/// once the host beat has been seen to advance (before this block or in its watch), and
/// at the internal clock otherwise. A host jump then releases every sounding note and
/// moves the internal clock to the host beat; without a jump the sounding notes and the
/// current step are kept.
pub proof fn lemma_running_block_follows_host(
    m: SequencerView,
    host_beat_bits: u64,
    host_advanced: bool,
    host_jumped: bool,
)
    requires
        m.running,
    ensures
        ({
            let works = m.host_transport_works || (m.eval_count < TRANSPORT_EVAL_BLOCKS
                && host_advanced);
            let r = begin_effect(m, true, host_beat_bits, host_advanced, host_jumped);
            &&& r.0.running
            &&& r.0.host_transport_works == works
            &&& r.0.eval_count == if m.eval_count < TRANSPORT_EVAL_BLOCKS {
                m.eval_count + 1
            } else {
                m.eval_count as int
            }
            &&& r.0.samples_processed == m.samples_processed
            &&& works ==> r.2 == Some(host_beat_bits)
            &&& !works ==> r.2 == Some(m.internal_beat_bits)
            &&& works && host_jumped ==> {
                &&& r.1 == note_offs(m.active, 0)
                &&& r.0.active.len() == 0
                &&& r.0.current_step is None
                &&& r.0.internal_beat_bits == host_beat_bits
            }
            &&& !(works && host_jumped) ==> {
                &&& r.1.len() == 0
                &&& r.0.active == m.active
                &&& r.0.current_step == m.current_step
                &&& r.0.internal_beat_bits == m.internal_beat_bits
            }
        }),
{
}

/// Swing: the note of an even step starts on the sample where the playhead enters it; the
/// note of an odd step starts `swing_delay` samples later, but never after the last
/// sample of the block.
pub proof fn lemma_note_timing_swing(plan: PlanView, k: int, idx: int)
    requires
        0 <= k < plan.len,
        0 <= idx < 16,
    ensures
        idx % 2 == 0 ==> note_timing(plan, k, idx) == k,
        idx % 2 == 1 && k + plan.swing_delay <= plan.len - 1 ==> note_timing(plan, k, idx) == k
            + plan.swing_delay,
        idx % 2 == 1 && k + plan.swing_delay > plan.len - 1 ==> note_timing(plan, k, idx)
            == plan.len - 1,
        k <= note_timing(plan, k, idx) < plan.len,
{
}

/// Playing samples moves the current step to the step of the last sample played,
/// whether that step is active or not; before any sample it is the step given.
pub proof fn lemma_block_current_step(
    plan: PlanView,
    k: nat,
    current: Option<usize>,
    active: Seq<ActiveNote>,
)
    ensures
        k == 0 ==> block_effect(plan, k, current, active).0 == current,
        k > 0 ==> block_effect(plan, k, current, active).0 == Some(plan.step_at[k - 1] % 16),
{
}

/// Sample `k` of a block extends the events of the samples before it. When the playhead
/// enters an active step from another step (or from none), the sample sends that step's
/// note-on, on channel 0, with the step's note and velocity, at the note's swung timing;
/// otherwise it sends only note-offs.
pub proof fn lemma_sample_note_on(
    plan: PlanView,
    k: nat,
    current: Option<usize>,
    active: Seq<ActiveNote>,
)
    ensures
        ({
            let before = block_effect(plan, k, current, active);
            let after = block_effect(plan, k + 1, current, active);
            let idx = plan.step_at[k as int] % 16;
            let step = plan.steps[idx as int];
            let entered = before.0 != Some(idx);
            &&& after.2.len() >= before.2.len()
            &&& after.2.take(before.2.len() as int) == before.2
            &&& entered && step.active ==> after.2.contains(
                SeqEvent::NoteOn {
                    timing: note_timing(plan, k as int, idx as int) as u32,
                    channel: 0,
                    note: step.note,
                    velocity_bits: step.velocity_bits,
                },
            )
            &&& !(entered && step.active) ==> forall|e: int|
                before.2.len() <= e < after.2.len() ==> after.2[e] is NoteOff
            &&& entered && step.active ==> {
                let timing = note_timing(plan, k as int, idx as int);
                let started = ActiveNote {
                    note: step.note,
                    channel: 0,
                    off_sample: (plan.base + timing + plan.gate_samples[idx as int]) as u64,
                };
                ||| after.1.contains(started)
                ||| started.off_sample <= plan.base + k && after.2.contains(
                    SeqEvent::NoteOff { timing: k as u32, channel: 0, note: step.note },
                )
            }
        }),
{
    broadcast use vstd::seq_lib::group_to_multiset_ensures;
    broadcast use vstd::multiset::group_multiset_axioms;

    let before = block_effect(plan, k, current, active);
    let after = block_effect(plan, k + 1, current, active);
    let last = sample_effect(plan, k as int, before.0, before.1);
    assert(after.2 == before.2 + last.2);
    assert(after.2.take(before.2.len() as int) =~= before.2);
    let idx = plan.step_at[k as int] % 16;
    let step = plan.steps[idx as int];
    let timing = note_timing(plan, k as int, idx as int);
    let off = (plan.base + timing + plan.gate_samples[idx as int]) as u64;
    let released = sweep(
        if before.0 != Some(idx) && step.active {
            trigger_effect(before.1, step, timing as u32, off).0
        } else {
            before.1
        },
        0,
        due_at(plan.base + k as u32),
    ).1;
    if before.0 != Some(idx) && step.active {
        let t = trigger_effect(before.1, step, timing as u32, off);
        let on = SeqEvent::NoteOn {
            timing: timing as u32,
            channel: 0,
            note: step.note,
            velocity_bits: step.velocity_bits,
        };
        let offs = note_offs(sweep(before.1, 0, same_note(step.note, 0)).1, timing as u32);
        assert(t.1 == offs.push(on));
        let at: int = before.2.len() as int + offs.len() as int;
        assert(after.2[at] == on);
        let started = ActiveNote { note: step.note, channel: 0, off_sample: off };
        assert(t.0 == sweep(before.1, 0, same_note(step.note, 0)).0.push(started));
        assert(t.0.contains(started)) by {
            assert(t.0[t.0.len() - 1] == started);
        }
        let f = due_at(plan.base + k as u32);
        lemma_sweep_partition(t.0, 0, f);
        let r = sweep(t.0, 0, f);
        assert(t.0.to_multiset().count(started) > 0);
        assert(r.0.to_multiset().count(started) + r.1.to_multiset().count(started) > 0);
        if !r.0.contains(started) {
            assert(r.0.to_multiset().count(started) == 0);
            assert(r.1.contains(started));
            let w = choose|w: int| 0 <= w < r.1.len() && r.1[w] == started;
            assert(f(r.1[w]));
            let offs2 = note_offs(r.1, k as u32);
            assert(last.2 == t.1 + offs2);
            let at2: int = before.2.len() as int + t.1.len() as int + w;
            assert(after.2[at2] == offs2[w]);
            assert(after.2[at2] == (SeqEvent::NoteOff { timing: k as u32, channel: 0, note: step.note }));
        }
    } else {
        assert forall|e: int| before.2.len() <= e < after.2.len() implies after.2[e] is NoteOff by {
            assert(after.2[e] == last.2[e - before.2.len()]);
            assert(last.2 =~= note_offs(released, k as u32));
        }
    }
}

/// After the note-offs of a sample, no sounding note is overdue, every released note was
/// due, and released plus still sounding are the notes from before.
pub proof fn lemma_release_leaves_nothing_due(active: Seq<ActiveNote>, offset: u32, base: int)
    ensures
        ({
            let swept = sweep(active, 0, due_at(base + offset));
            let r = release_effect(active, offset, base);
            &&& forall|k: int| 0 <= k < r.0.len() ==> r.0[k].off_sample > base + offset
            &&& forall|k: int| 0 <= k < swept.1.len() ==> swept.1[k].off_sample <= base + offset
            &&& r.0.to_multiset().add(swept.1.to_multiset()) == active.to_multiset()
            &&& r.1 == note_offs(swept.1, offset)
        }),
{
    lemma_sweep_partition(active, 0, due_at(base + offset));
}

/// One sample keeps the sounding notes distinct by pitch and channel.
proof fn lemma_sample_keeps_unique(
    plan: PlanView,
    k: int,
    current: Option<usize>,
    active: Seq<ActiveNote>,
)
    requires
        unique_notes(active),
    ensures
        unique_notes(sample_effect(plan, k, current, active).1),
{
    let idx = plan.step_at[k] % 16;
    let step = plan.steps[idx as int];
    let new_step = current != Some(idx);
    let timing = note_timing(plan, k, idx as int);
    let triggered = if new_step && step.active {
        trigger_effect(
            active,
            step,
            timing as u32,
            (plan.base + timing + plan.gate_samples[idx as int]) as u64,
        )
    } else {
        (active, Seq::empty())
    };
    if new_step && step.active {
        let f = same_note(step.note, 0);
        lemma_sweep_partition(active, 0, f);
        let rest = sweep(active, 0, f).0;
        let added = ActiveNote {
            note: step.note,
            channel: 0,
            off_sample: (plan.base + timing + plan.gate_samples[idx as int]) as u64,
        };
        assert(triggered.0 == rest.push(added));
        assert forall|a: int, b: int|
            0 <= a < b < triggered.0.len() implies !(triggered.0[a].note == triggered.0[b].note
            && triggered.0[a].channel == triggered.0[b].channel) by {
            if b == rest.len() {
                assert(!f(rest[a]));
            }
        }
    }
    lemma_sweep_partition(triggered.0, 0, due_at(plan.base + k as u32));
}

/// Playing a block keeps at most one sounding note per pitch and channel.
pub proof fn lemma_block_keeps_unique(
    plan: PlanView,
    k: nat,
    current: Option<usize>,
    active: Seq<ActiveNote>,
)
    requires
        unique_notes(active),
    ensures
        unique_notes(block_effect(plan, k, current, active).1),
    decreases k,
{
    if k > 0 {
        lemma_block_keeps_unique(plan, (k - 1) as nat, current, active);
        let before = block_effect(plan, (k - 1) as nat, current, active);
        lemma_sample_keeps_unique(plan, k - 1, before.0, before.1);
    }
}

/// The timing of an event.
pub open spec fn event_timing(e: SeqEvent) -> u32 {
    match e {
        SeqEvent::NoteOn { timing, .. } => timing,
        SeqEvent::NoteOff { timing, .. } => timing,
    }
}

proof fn lemma_note_offs_timing(ns: Seq<ActiveNote>, timing: u32)
    ensures
        forall|k: int|
            0 <= k < note_offs(ns, timing).len() ==> event_timing(note_offs(ns, timing)[k])
                == timing,
{
}

/// Every event of the first `k` samples of a block falls inside the block.
pub proof fn lemma_block_events_within_block(
    plan: PlanView,
    k: nat,
    current: Option<usize>,
    active: Seq<ActiveNote>,
)
    requires
        k <= plan.len,
        plan.len <= u32::MAX,
    ensures
        forall|e: int|
            0 <= e < block_effect(plan, k, current, active).2.len() ==> event_timing(
                block_effect(plan, k, current, active).2[e],
            ) < plan.len,
    decreases k,
{
    if k > 0 {
        lemma_block_events_within_block(plan, (k - 1) as nat, current, active);
        let before = block_effect(plan, (k - 1) as nat, current, active);
        let idx = plan.step_at[k - 1] % 16;
        let step = plan.steps[idx as int];
        let timing = note_timing(plan, k - 1, idx as int);
        let new_step = before.0 != Some(idx);
        let off = (plan.base + timing + plan.gate_samples[idx as int]) as u64;
        let triggered = if new_step && step.active {
            trigger_effect(before.1, step, timing as u32, off)
        } else {
            (before.1, Seq::empty())
        };
        let released = release_effect(triggered.0, (k - 1) as u32, plan.base);
        assert(0 <= timing < plan.len);
        if new_step && step.active {
            let swept = sweep(before.1, 0, same_note(step.note, 0));
            lemma_note_offs_timing(swept.1, timing as u32);
        }
        lemma_note_offs_timing(sweep(triggered.0, 0, due_at(plan.base + (k - 1) as u32)).1, (k
            - 1) as u32);
        let all = before.2 + (triggered.1 + released.1);
        assert(block_effect(plan, k, current, active).2 == all);
        assert forall|e: int| 0 <= e < all.len() implies event_timing(all[e]) < plan.len by {
            if e < before.2.len() {
            } else if e < before.2.len() + triggered.1.len() {
                let t = e - before.2.len();
                if new_step && step.active {
                    let swept = sweep(before.1, 0, same_note(step.note, 0));
                    if t < note_offs(swept.1, timing as u32).len() {
                        assert(triggered.1[t] == note_offs(swept.1, timing as u32)[t]);
                    }
                }
            } else {
                let t = e - before.2.len() - triggered.1.len();
                assert(all[e] == released.1[t]);
            }
        }
    }
}

/// Whether the current step, when there is one, is one of the 16 steps of the bar.
pub open spec fn step_in_bar(current: Option<usize>) -> bool {
    current matches Some(s) ==> s < 16
}

/// Playing a block only ever moves to one of the 16 steps of the bar.
pub proof fn lemma_block_step_in_bar(
    plan: PlanView,
    k: nat,
    current: Option<usize>,
    active: Seq<ActiveNote>,
)
    requires
        step_in_bar(current),
    ensures
        step_in_bar(block_effect(plan, k, current, active).0),
    decreases k,
{
    if k > 0 {
        lemma_block_step_in_bar(plan, (k - 1) as nat, current, active);
    }
}

/// Starting a block keeps the current step within the bar.
pub proof fn lemma_begin_step_in_bar(
    m: SequencerView,
    playing: bool,
    host_beat_bits: u64,
    host_advanced: bool,
    host_jumped: bool,
)
    requires
        step_in_bar(m.current_step),
    ensures
        step_in_bar(begin_effect(m, playing, host_beat_bits, host_advanced, host_jumped).0.current_step),
{
}

/// Starting a block keeps the sounding notes distinct by pitch and channel.
pub proof fn lemma_begin_keeps_unique(
    m: SequencerView,
    playing: bool,
    host_beat_bits: u64,
    host_advanced: bool,
    host_jumped: bool,
)
    requires
        unique_notes(m.active),
    ensures
        unique_notes(begin_effect(m, playing, host_beat_bits, host_advanced, host_jumped).0.active),
{
}

/// Transport-driven sequencer that falls back to an internal clock when the host beat
/// does not advance, but never plays while the host transport is stopped.
pub struct Sequencer {
    current_step: Option<usize>,
    running: bool,
    internal_beat_pos_bits: u64,
    active_notes: Vec<ActiveNote>,
    samples_processed: u64,
    last_host_beat_bits: u64,
    host_transport_works: bool,
    eval_count: u32,
}

impl View for Sequencer {
    type V = SequencerView;

    closed spec fn view(&self) -> SequencerView {
        SequencerView {
            current_step: self.current_step,
            running: self.running,
            internal_beat_bits: self.internal_beat_pos_bits,
            active: self.active_notes@,
            samples_processed: self.samples_processed,
            last_host_beat_bits: self.last_host_beat_bits,
            host_transport_works: self.host_transport_works,
            eval_count: self.eval_count,
        }
    }
}

impl Sequencer {
    /// A stopped sequencer with no step played yet and no sounding notes.
    pub fn new() -> (s: Self)
        ensures
            s@ == fresh_view(),
    {
        Sequencer {
            current_step: None,
            running: false,
            internal_beat_pos_bits: ZERO_BEAT_BITS,
            active_notes: Vec::with_capacity(16),
            samples_processed: 0,
            last_host_beat_bits: NO_HOST_BEAT_BITS,
            host_transport_works: false,
            eval_count: 0,
        }
    }

    /// Whether the sequencer is playing.
    pub fn is_running(&self) -> (r: bool)
        ensures
            r == self@.running,
    {
        self.running
    }

    /// Bit pattern of the internal beat position (for the editor's step indicator).
    pub fn current_beat_pos_bits(&self) -> (r: u64)
        ensures
            r == self@.internal_beat_bits,
    {
        self.internal_beat_pos_bits
    }

    /// Bit pattern of the host beat position seen at the end of the last block.
    pub fn last_host_beat_bits(&self) -> (r: u64)
        ensures
            r == self@.last_host_beat_bits,
    {
        self.last_host_beat_bits
    }

    /// The notes that are sounding and wait for their note-off.
    pub fn active_notes(&self) -> (r: &Vec<ActiveNote>)
        ensures
            r@ == self@.active,
    {
        &self.active_notes
    }

    /// Number of samples processed since the last reset.
    pub fn samples_processed(&self) -> (r: u64)
        ensures
            r == self@.samples_processed,
    {
        self.samples_processed
    }

    /// Whether the host beat has been seen to advance since the last reset.
    pub fn host_transport_works(&self) -> (r: bool)
        ensures
            r == self@.host_transport_works,
    {
        self.host_transport_works
    }

    /// Number of blocks in which the host beat was watched since the last reset.
    pub fn eval_count(&self) -> (r: u32)
        ensures
            r == self@.eval_count,
    {
        self.eval_count
    }

    /// Resets the sequencer: stopped, no step, no sounding notes, clocks cleared.
    pub fn reset(&mut self)
        ensures
            final(self)@ == fresh_view(),
    {
        self.current_step = None;
        self.running = false;
        self.internal_beat_pos_bits = ZERO_BEAT_BITS;
        self.active_notes.clear();
        self.samples_processed = 0;
        self.last_host_beat_bits = NO_HOST_BEAT_BITS;
        self.host_transport_works = false;
        self.eval_count = 0;
    }

    /// Releases, at `timing`, every sounding note of pitch `note` on `channel`.
    fn send_note_off_for(&mut self, note: u8, channel: u8, timing: u32, events: &mut Vec<SeqEvent>)
        ensures
            final(self)@ == (SequencerView {
                active: sweep(old(self)@.active, 0, same_note(note, channel)).0,
                ..old(self)@
            }),
            final(events)@ == old(events)@ + note_offs(
                sweep(old(self)@.active, 0, same_note(note, channel)).1,
                timing,
            ),
    {
        let ghost f = same_note(note, channel);
        let ghost whole = sweep(old(self)@.active, 0, f);
        let ghost mut removed: Seq<ActiveNote> = Seq::empty();
        let mut i: usize = 0;
        while i < self.active_notes.len()
            invariant
                i <= self.active_notes@.len(),
                f == same_note(note, channel),
                whole == sweep(old(self)@.active, 0, f),
                self@ == (SequencerView { active: self.active_notes@, ..old(self)@ }),
                whole.0 == sweep(self.active_notes@, i as int, f).0,
                whole.1 == removed + sweep(self.active_notes@, i as int, f).1,
                events@ == old(events)@ + note_offs(removed, timing),
            decreases self.active_notes@.len() - i,
        {
            if self.active_notes[i].note == note && self.active_notes[i].channel == channel {
                let ghost before = self.active_notes@;
                let removed_note = self.active_notes.swap_remove(i);
                events.push(
                    SeqEvent::NoteOff {
                        timing,
                        channel: removed_note.channel,
                        note: removed_note.note,
                    },
                );
                proof {
                    assert(f(before[i as int]));
                    assert(sweep(before, i as int, f).1 == seq![before[i as int]] + sweep(
                        self.active_notes@,
                        i as int,
                        f,
                    ).1);
                    assert(removed + (seq![before[i as int]] + sweep(
                        self.active_notes@,
                        i as int,
                        f,
                    ).1) == removed.push(before[i as int]) + sweep(
                        self.active_notes@,
                        i as int,
                        f,
                    ).1);
                    assert(note_offs(removed.push(before[i as int]), timing) == note_offs(
                        removed,
                        timing,
                    ).push(note_off_event(before[i as int], timing)));
                    removed = removed.push(before[i as int]);
                }
            } else {
                i = i + 1;
            }
        }
        proof {
            assert(removed + Seq::<ActiveNote>::empty() == removed);
        }
    }

    /// Releases, at `sample_offset`, every sounding note whose off time has come.
    fn process_note_offs(&mut self, sample_offset: u32, events: &mut Vec<SeqEvent>)
        requires
            old(self).samples_processed + sample_offset <= u64::MAX,
        ensures
            final(self)@ == (SequencerView {
                active: release_effect(
                    old(self)@.active,
                    sample_offset,
                    old(self)@.samples_processed as int,
                ).0,
                ..old(self)@
            }),
            final(events)@ == old(events)@ + release_effect(
                old(self)@.active,
                sample_offset,
                old(self)@.samples_processed as int,
            ).1,
    {
        let abs_sample = self.samples_processed + sample_offset as u64;
        let ghost f = due_at(abs_sample as int);
        let ghost whole = sweep(old(self)@.active, 0, f);
        let ghost mut removed: Seq<ActiveNote> = Seq::empty();
        let mut i: usize = 0;
        while i < self.active_notes.len()
            invariant
                i <= self.active_notes@.len(),
                f == due_at(abs_sample as int),
                abs_sample == old(self)@.samples_processed + sample_offset,
                whole == sweep(old(self)@.active, 0, f),
                self@ == (SequencerView { active: self.active_notes@, ..old(self)@ }),
                whole.0 == sweep(self.active_notes@, i as int, f).0,
                whole.1 == removed + sweep(self.active_notes@, i as int, f).1,
                events@ == old(events)@ + note_offs(removed, sample_offset),
            decreases self.active_notes@.len() - i,
        {
            if self.active_notes[i].off_sample <= abs_sample {
                let ghost before = self.active_notes@;
                let removed_note = self.active_notes.swap_remove(i);
                events.push(
                    SeqEvent::NoteOff {
                        timing: sample_offset,
                        channel: removed_note.channel,
                        note: removed_note.note,
                    },
                );
                proof {
                    assert(f(before[i as int]));
                    assert(sweep(before, i as int, f).1 == seq![before[i as int]] + sweep(
                        self.active_notes@,
                        i as int,
                        f,
                    ).1);
                    assert(removed + (seq![before[i as int]] + sweep(
                        self.active_notes@,
                        i as int,
                        f,
                    ).1) == removed.push(before[i as int]) + sweep(
                        self.active_notes@,
                        i as int,
                        f,
                    ).1);
                    assert(note_offs(removed.push(before[i as int]), sample_offset) == note_offs(
                        removed,
                        sample_offset,
                    ).push(note_off_event(before[i as int], sample_offset)));
                    removed = removed.push(before[i as int]);
                }
            } else {
                i = i + 1;
            }
        }
        proof {
            assert(removed + Seq::<ActiveNote>::empty() == removed);
        }
    }

    /// Starts the note of `step` at `timing`, first releasing any sounding note of the
    /// same pitch on channel 0, and remembers it until `off_sample`.
    fn trigger_note(&mut self, step: SeqStep, timing: u32, off_sample: u64, events: &mut Vec<SeqEvent>)
        ensures
            final(self)@ == (SequencerView {
                active: trigger_effect(old(self)@.active, step, timing, off_sample).0,
                ..old(self)@
            }),
            final(events)@ == old(events)@ + trigger_effect(
                old(self)@.active,
                step,
                timing,
                off_sample,
            ).1,
    {
        self.send_note_off_for(step.note, 0, timing, events);
        events.push(
            SeqEvent::NoteOn { timing, channel: 0, note: step.note, velocity_bits: step.velocity_bits },
        );
        self.active_notes.push(ActiveNote { note: step.note, channel: 0, off_sample });
        proof {
            let swept = sweep(old(self)@.active, 0, same_note(step.note, 0));
            let on = SeqEvent::NoteOn {
                timing,
                channel: 0,
                note: step.note,
                velocity_bits: step.velocity_bits,
            };
            assert(old(events)@ + note_offs(swept.1, timing) + seq![on] == old(events)@ + note_offs(
                swept.1,
                timing,
            ).push(on));
        }
    }

    /// Starts a block. `host_beat_bits` is the bit pattern of the host beat position
    /// (0.0 when the host gives none); `host_advanced` tells whether it differs from the
    /// last host beat while that one is a real position (not below zero);
    /// `host_jumped` whether it lies more than half a beat away from such a last host
    /// beat.
    pub fn begin_block(
        &mut self,
        playing: bool,
        host_beat_bits: u64,
        host_advanced: bool,
        host_jumped: bool,
    ) -> (start: BlockStart)
        ensures
            final(self)@ == begin_effect(
                old(self)@,
                playing,
                host_beat_bits,
                host_advanced,
                host_jumped,
            ).0,
            start.note_offs@ == begin_effect(
                old(self)@,
                playing,
                host_beat_bits,
                host_advanced,
                host_jumped,
            ).1,
            start.start_beat_bits == begin_effect(
                old(self)@,
                playing,
                host_beat_bits,
                host_advanced,
                host_jumped,
            ).2,
    {
        if self.eval_count < TRANSPORT_EVAL_BLOCKS {
            self.eval_count = self.eval_count + 1;
            if playing && host_advanced {
                self.host_transport_works = true;
            }
        }
        let mut note_offs: Vec<SeqEvent> = Vec::new();

        if !playing {
            if self.running {
                self.send_all_notes_off(0, &mut note_offs);
            }
            self.reset();
            proof {
                assert(note_offs@ =~= begin_effect(
                    old(self)@,
                    playing,
                    host_beat_bits,
                    host_advanced,
                    host_jumped,
                ).1);
            }
            return BlockStart { note_offs, start_beat_bits: None };
        }

        if !self.running {
            self.reset();
            if self.host_transport_works {
                self.internal_beat_pos_bits = host_beat_bits;
            }
        }
        self.running = true;

        if self.host_transport_works && host_jumped {
            self.send_all_notes_off(0, &mut note_offs);
            self.current_step = None;
            self.internal_beat_pos_bits = host_beat_bits;
        }
        proof {
            assert(note_offs@ =~= begin_effect(
                old(self)@,
                playing,
                host_beat_bits,
                host_advanced,
                host_jumped,
            ).1);
        }

        let start = if self.host_transport_works {
            host_beat_bits
        } else {
            self.internal_beat_pos_bits
        };
        BlockStart { note_offs, start_beat_bits: Some(start) }
    }

    /// Plays one block: for each sample, a change of step starts the step's note (when
    /// the step is active) and due notes are released; then the clocks take the given
    /// values and the sample count advances by the block length.
    pub fn run_block(
        &mut self,
        plan: &BlockPlan,
        steps: &[SeqStep; 16],
        next_internal_beat_bits: u64,
        host_beat_bits: u64,
    ) -> (events: Vec<SeqEvent>)
        requires
            plan_fits(plan, old(self)@.samples_processed),
        ensures
            ({
                let r = block_effect(
                    plan_view(plan, steps, old(self)@.samples_processed as int),
                    plan.step_at@.len(),
                    old(self)@.current_step,
                    old(self)@.active,
                );
                &&& final(self)@ == SequencerView {
                    current_step: r.0,
                    active: r.1,
                    internal_beat_bits: next_internal_beat_bits,
                    last_host_beat_bits: host_beat_bits,
                    samples_processed: (old(self)@.samples_processed + plan.step_at@.len()) as u64,
                    ..old(self)@
                }
                &&& events@ == r.2
            }),
            unique_notes(old(self)@.active) ==> unique_notes(final(self)@.active),
            step_in_bar(old(self)@.current_step) ==> step_in_bar(final(self)@.current_step),
            forall|e: int|
                0 <= e < events@.len() ==> event_timing(events@[e]) < plan.step_at@.len(),
    {
        let buffer_len = plan.step_at.len();
        let ghost pv = plan_view(plan, steps, old(self)@.samples_processed as int);
        let mut events: Vec<SeqEvent> = Vec::new();
        let mut sample_offset: usize = 0;
        while sample_offset < buffer_len
            invariant
                buffer_len == plan.step_at@.len(),
                sample_offset <= buffer_len,
                pv == plan_view(plan, steps, old(self)@.samples_processed as int),
                plan_fits(plan, old(self)@.samples_processed),
                self@ == (SequencerView {
                    current_step: self@.current_step,
                    active: self@.active,
                    ..old(self)@
                }),
                ({
                    let r = block_effect(
                        pv,
                        sample_offset as nat,
                        old(self)@.current_step,
                        old(self)@.active,
                    );
                    &&& self@.current_step == r.0
                    &&& self@.active == r.1
                    &&& events@ == r.2
                }),
            decreases buffer_len - sample_offset,
        {
            let ghost cur0 = self@.current_step;
            let ghost act0 = self@.active;
            let ghost ev0 = events@;
            let step_index = plan.step_at[sample_offset] % 16;
            let is_new_step = match self.current_step {
                None => true,
                Some(prev) => step_index != prev,
            };
            if is_new_step {
                self.current_step = Some(step_index);
                let step = steps[step_index];
                if step.active {
                    let swing_delay_samples: u64 = if step_index % 2 == 1 {
                        plan.swing_delay
                    } else {
                        0
                    };
                    let latest: u64 = buffer_len as u64 - 1;
                    let wanted: u64 = sample_offset as u64 + swing_delay_samples;
                    let timing: u32 = if wanted < latest {
                        wanted as u32
                    } else {
                        latest as u32
                    };
                    assert(self.samples_processed + buffer_len + plan.gate_samples[step_index as int]
                        <= u64::MAX);
                    let off_abs = self.samples_processed + timing as u64
                        + plan.gate_samples[step_index];
                    self.trigger_note(step, timing, off_abs, &mut events);
                }
            }
            let ghost ev1 = events@;
            self.process_note_offs(sample_offset as u32, &mut events);
            proof {
                let se = sample_effect(pv, sample_offset as int, cur0, act0);
                assert(self@.current_step == se.0);
                assert(self@.active == se.1);
                assert(events@ == ev0 + se.2);
            }
            sample_offset = sample_offset + 1;
        }
        proof {
            lemma_block_events_within_block(
                pv,
                buffer_len as nat,
                old(self)@.current_step,
                old(self)@.active,
            );
            if step_in_bar(old(self)@.current_step) {
                lemma_block_step_in_bar(
                    pv,
                    buffer_len as nat,
                    old(self)@.current_step,
                    old(self)@.active,
                );
            }
            if unique_notes(old(self)@.active) {
                lemma_block_keeps_unique(
                    pv,
                    buffer_len as nat,
                    old(self)@.current_step,
                    old(self)@.active,
                );
            }
        }
        self.internal_beat_pos_bits = next_internal_beat_bits;
        self.last_host_beat_bits = host_beat_bits;
        self.samples_processed = self.samples_processed + buffer_len as u64;
        events
    }

    /// Releases every sounding note at `timing`, in order.
    fn send_all_notes_off(&mut self, timing: u32, events: &mut Vec<SeqEvent>)
        ensures
            final(events)@ == old(events)@ + note_offs(old(self)@.active, timing),
            final(self)@ == (SequencerView { active: Seq::empty(), ..old(self)@ }),
    {
        let n = self.active_notes.len();
        for i in 0..n
            invariant
                n == self.active_notes@.len(),
                self@ == old(self)@,
                events@ == old(events)@ + note_offs(old(self)@.active.take(i as int), timing),
        {
            let note = self.active_notes[i];
            events.push(SeqEvent::NoteOff { timing, channel: note.channel, note: note.note });
            proof {
                assert(old(self)@.active.take(i + 1) == old(self)@.active.take(i as int).push(
                    note,
                ));
            }
        }
        proof {
            assert(old(self)@.active.take(n as int) == old(self)@.active);
        }
        self.active_notes.clear();
    }
}

} // verus!
