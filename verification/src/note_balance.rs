//! Note accounting of the sequencer over whole runs: each note-off answers an earlier
//! note-on of the same pitch and channel, the notes still sounding are exactly the
//! note-ons not yet answered, and stopping the transport leaves nothing sounding.

use vstd::prelude::*;
use crate::sequencer::{
    ActiveNote,
    SeqEvent,
    SeqStep,
    SequencerView,
    PlanView,
    fresh_view,
    note_offs,
    sweep,
    same_note,
    due_at,
    trigger_effect,
    release_effect,
    note_timing,
    sample_effect,
    block_effect,
    begin_effect,
};

verus! {

/// What an event does to the count of sounding notes of `note` on `channel`: a note-on
/// adds one, a note-off takes one away, any other event leaves it.
pub open spec fn event_weight(e: SeqEvent, channel: u8, note: u8) -> int {
    match e {
        SeqEvent::NoteOn { channel: c, note: n, .. } => if c == channel && n == note {
            1
        } else {
            0
        },
        SeqEvent::NoteOff { channel: c, note: n, .. } => if c == channel && n == note {
            -1
        } else {
            0
        },
    }
}

/// Note-ons minus note-offs of `note` on `channel` among `events`.
pub open spec fn note_balance(events: Seq<SeqEvent>, channel: u8, note: u8) -> int
    decreases events.len(),
{
    if events.len() == 0 {
        0
    } else {
        note_balance(events.drop_last(), channel, note) + event_weight(events.last(), channel, note)
    }
}

/// Whether a sounding note is `note` on `channel`.
pub open spec fn note_weight(a: ActiveNote, channel: u8, note: u8) -> int {
    if a.channel == channel && a.note == note {
        1
    } else {
        0
    }
}

/// Number of sounding notes of `note` on `channel`.
pub open spec fn held_count(active: Seq<ActiveNote>, channel: u8, note: u8) -> int
    decreases active.len(),
{
    if active.len() == 0 {
        0
    } else {
        held_count(active.drop_last(), channel, note) + note_weight(active.last(), channel, note)
    }
}

/// Whether sending `events` takes the sounding notes of `note` on `channel` from those
/// of `before` to those of `after`, without ever releasing one that is not sounding.
pub open spec fn accounts_note(
    before: Seq<ActiveNote>,
    events: Seq<SeqEvent>,
    after: Seq<ActiveNote>,
    channel: u8,
    note: u8,
) -> bool {
    &&& held_count(before, channel, note) + note_balance(events, channel, note) == held_count(
        after,
        channel,
        note,
    )
    &&& forall|i: int|
        0 <= i <= events.len() ==> held_count(before, channel, note) + #[trigger] note_balance(
            events.take(i),
            channel,
            note,
        ) >= 0
}

/// `accounts_note` for every pitch and channel.
pub open spec fn accounts_for(
    before: Seq<ActiveNote>,
    events: Seq<SeqEvent>,
    after: Seq<ActiveNote>,
) -> bool {
    forall|channel: u8, note: u8| #[trigger] accounts_note(before, events, after, channel, note)
}

/// A stopped sequencer has no sounding notes.
pub open spec fn stopped_is_silent(m: SequencerView) -> bool {
    !m.running ==> m.active.len() == 0
}

/// What one processing call is given: the transport at the start of the block and, for
/// a playing transport, the integers the block is played from.
pub struct ProcessCall {
    pub playing: bool,
    pub host_beat_bits: u64,
    pub host_advanced: bool,
    pub host_jumped: bool,
    pub step_at: Seq<usize>,
    pub steps: Seq<SeqStep>,
    pub swing_delay: u64,
    pub gate_samples: Seq<u64>,
    pub next_internal_beat_bits: u64,
}

/// One processing call, as the contracts of `Sequencer::begin_block` and
/// `Sequencer::run_block` describe it: the block starts, and when the transport plays,
/// the block is played from the sample count reached. Gives the state after the call and
/// the events sent, in order.
pub open spec fn process_effect(m: SequencerView, c: ProcessCall) -> (SequencerView, Seq<SeqEvent>) {
    let b = begin_effect(m, c.playing, c.host_beat_bits, c.host_advanced, c.host_jumped);
    if b.2 is None {
        (b.0, b.1)
    } else {
        let plan = PlanView {
            step_at: c.step_at,
            steps: c.steps,
            swing_delay: c.swing_delay,
            gate_samples: c.gate_samples,
            base: b.0.samples_processed as int,
            len: c.step_at.len() as int,
        };
        let r = block_effect(plan, c.step_at.len(), b.0.current_step, b.0.active);
        (
            SequencerView {
                current_step: r.0,
                active: r.1,
                internal_beat_bits: c.next_internal_beat_bits,
                last_host_beat_bits: c.host_beat_bits,
                samples_processed: (b.0.samples_processed + c.step_at.len()) as u64,
                ..b.0
            },
            b.1 + r.2,
        )
    }
}

/// A run of processing calls: the state after them and every event sent, in order.
pub open spec fn process_run(m: SequencerView, calls: Seq<ProcessCall>) -> (
    SequencerView,
    Seq<SeqEvent>,
)
    decreases calls.len(),
{
    if calls.len() == 0 {
        (m, Seq::empty())
    } else {
        let before = process_run(m, calls.drop_last());
        let last = process_effect(before.0, calls.last());
        (last.0, before.1 + last.1)
    }
}

proof fn lemma_held_nonneg(s: Seq<ActiveNote>, channel: u8, note: u8)
    ensures
        held_count(s, channel, note) >= 0,
    decreases s.len(),
{
    if s.len() > 0 {
        lemma_held_nonneg(s.drop_last(), channel, note);
    }
}

proof fn lemma_held_concat(a: Seq<ActiveNote>, b: Seq<ActiveNote>, channel: u8, note: u8)
    ensures
        held_count(a + b, channel, note) == held_count(a, channel, note) + held_count(
            b,
            channel,
            note,
        ),
    decreases b.len(),
{
    if b.len() == 0 {
        assert(a + b =~= a);
    } else {
        lemma_held_concat(a, b.drop_last(), channel, note);
        assert((a + b).drop_last() =~= a + b.drop_last());
    }
}

proof fn lemma_held_update(s: Seq<ActiveNote>, i: int, x: ActiveNote, channel: u8, note: u8)
    requires
        0 <= i < s.len(),
    ensures
        held_count(s.update(i, x), channel, note) == held_count(s, channel, note) - note_weight(
            s[i],
            channel,
            note,
        ) + note_weight(x, channel, note),
    decreases s.len(),
{
    let u = s.update(i, x);
    if i == s.len() - 1 {
        assert(u.drop_last() =~= s.drop_last());
    } else {
        lemma_held_update(s.drop_last(), i, x, channel, note);
        assert(u.drop_last() =~= s.drop_last().update(i, x));
    }
}

proof fn lemma_held_prefix(s: Seq<ActiveNote>, i: int, channel: u8, note: u8)
    requires
        0 <= i <= s.len(),
    ensures
        0 <= held_count(s.take(i), channel, note) <= held_count(s, channel, note),
    decreases s.len(),
{
    lemma_held_nonneg(s.take(i), channel, note);
    if i < s.len() {
        lemma_held_prefix(s.drop_last(), i, channel, note);
        assert(s.drop_last().take(i) =~= s.take(i));
    } else {
        assert(s.take(i) =~= s);
    }
}

/// A sweep neither loses nor makes up notes: those kept and those removed together hold
/// as many of each pitch and channel as before.
proof fn lemma_sweep_held(
    notes: Seq<ActiveNote>,
    i: int,
    gone: spec_fn(ActiveNote) -> bool,
    channel: u8,
    note: u8,
)
    requires
        0 <= i <= notes.len(),
    ensures
        held_count(sweep(notes, i, gone).0, channel, note) + held_count(
            sweep(notes, i, gone).1,
            channel,
            note,
        ) == held_count(notes, channel, note),
    decreases notes.len() - i,
{
    if i >= notes.len() {
    } else if gone(notes[i]) {
        let u = notes.update(i, notes.last());
        let swapped = u.drop_last();
        lemma_sweep_held(swapped, i, gone, channel, note);
        lemma_held_update(notes, i, notes.last(), channel, note);
        assert(u.last() == notes.last());
        assert(held_count(u, channel, note) == held_count(swapped, channel, note) + note_weight(
            notes.last(),
            channel,
            note,
        ));
        let r = sweep(swapped, i, gone);
        let first = seq![notes[i]];
        lemma_held_concat(first, r.1, channel, note);
        assert(first.drop_last() =~= Seq::<ActiveNote>::empty());
        assert(held_count(Seq::<ActiveNote>::empty(), channel, note) == 0);
        assert(held_count(first, channel, note) == note_weight(notes[i], channel, note));
        assert(sweep(notes, i, gone) == (r.0, first + r.1));
    } else {
        lemma_sweep_held(notes, i + 1, gone, channel, note);
    }
}

proof fn lemma_balance_concat(a: Seq<SeqEvent>, b: Seq<SeqEvent>, channel: u8, note: u8)
    ensures
        note_balance(a + b, channel, note) == note_balance(a, channel, note) + note_balance(
            b,
            channel,
            note,
        ),
    decreases b.len(),
{
    if b.len() == 0 {
        assert(a + b =~= a);
    } else {
        lemma_balance_concat(a, b.drop_last(), channel, note);
        assert((a + b).drop_last() =~= a + b.drop_last());
    }
}

proof fn lemma_note_offs_balance(ns: Seq<ActiveNote>, timing: u32, channel: u8, note: u8)
    ensures
        note_balance(note_offs(ns, timing), channel, note) == -held_count(ns, channel, note),
    decreases ns.len(),
{
    if ns.len() > 0 {
        lemma_note_offs_balance(ns.drop_last(), timing, channel, note);
        assert(note_offs(ns, timing).drop_last() =~= note_offs(ns.drop_last(), timing));
    }
}

/// Nothing sent leaves the sounding notes as they are.
proof fn lemma_accounts_nothing(a: Seq<ActiveNote>, channel: u8, note: u8)
    ensures
        accounts_note(a, Seq::empty(), a, channel, note),
{
    lemma_held_nonneg(a, channel, note);
    assert forall|i: int| 0 <= i <= 0 implies held_count(a, channel, note) + #[trigger] note_balance(
        Seq::<SeqEvent>::empty().take(i),
        channel,
        note,
    ) >= 0 by {
        assert(Seq::<SeqEvent>::empty().take(i) =~= Seq::<SeqEvent>::empty());
    }
}

/// Releasing some of the sounding notes sends one note-off for each of them.
proof fn lemma_accounts_release(
    notes: Seq<ActiveNote>,
    kept: Seq<ActiveNote>,
    removed: Seq<ActiveNote>,
    timing: u32,
    channel: u8,
    note: u8,
)
    requires
        held_count(kept, channel, note) + held_count(removed, channel, note) == held_count(
            notes,
            channel,
            note,
        ),
    ensures
        accounts_note(notes, note_offs(removed, timing), kept, channel, note),
{
    lemma_note_offs_balance(removed, timing, channel, note);
    lemma_held_nonneg(kept, channel, note);
    let offs = note_offs(removed, timing);
    assert forall|i: int| 0 <= i <= offs.len() implies held_count(notes, channel, note)
        + #[trigger] note_balance(offs.take(i), channel, note) >= 0 by {
        assert(offs.take(i) =~= note_offs(removed.take(i), timing));
        lemma_note_offs_balance(removed.take(i), timing, channel, note);
        lemma_held_prefix(removed, i, channel, note);
    }
}

/// Sending one batch of events after another accounts for both.
proof fn lemma_accounts_compose(
    a: Seq<ActiveNote>,
    e1: Seq<SeqEvent>,
    b: Seq<ActiveNote>,
    e2: Seq<SeqEvent>,
    c: Seq<ActiveNote>,
    channel: u8,
    note: u8,
)
    requires
        accounts_note(a, e1, b, channel, note),
        accounts_note(b, e2, c, channel, note),
    ensures
        accounts_note(a, e1 + e2, c, channel, note),
{
    lemma_balance_concat(e1, e2, channel, note);
    let e = e1 + e2;
    assert forall|i: int| 0 <= i <= e.len() implies held_count(a, channel, note)
        + #[trigger] note_balance(e.take(i), channel, note) >= 0 by {
        if i <= e1.len() {
            assert(e.take(i) =~= e1.take(i));
            assert(held_count(a, channel, note) + note_balance(e1.take(i), channel, note) >= 0);
        } else {
            let j = i - e1.len();
            assert(e.take(i) =~= e1 + e2.take(j));
            lemma_balance_concat(e1, e2.take(j), channel, note);
            assert(held_count(b, channel, note) + note_balance(e2.take(j), channel, note) >= 0);
        }
    }
}

/// Starting a note releases the sounding notes of its pitch, then sends its note-on
/// and adds it to the sounding notes.
proof fn lemma_trigger_accounts(
    active: Seq<ActiveNote>,
    step: SeqStep,
    timing: u32,
    off_sample: u64,
    channel: u8,
    note: u8,
)
    ensures
        accounts_note(
            active,
            trigger_effect(active, step, timing, off_sample).1,
            trigger_effect(active, step, timing, off_sample).0,
            channel,
            note,
        ),
{
    let f = same_note(step.note, 0);
    let swept = sweep(active, 0, f);
    lemma_sweep_held(active, 0, f, channel, note);
    lemma_accounts_release(active, swept.0, swept.1, timing, channel, note);
    let on = SeqEvent::NoteOn { timing, channel: 0, note: step.note, velocity_bits: step.velocity_bits };
    let added = ActiveNote { note: step.note, channel: 0, off_sample };
    assert(swept.0.push(added).drop_last() =~= swept.0);
    let ons = seq![on];
    let none = Seq::<SeqEvent>::empty();
    assert(ons.drop_last() =~= none);
    assert(note_balance(none, channel, note) == 0);
    assert(note_balance(ons, channel, note) == event_weight(on, channel, note));
    assert(held_count(swept.0.push(added), channel, note) == held_count(swept.0, channel, note)
        + note_weight(added, channel, note));
    lemma_held_nonneg(swept.0, channel, note);
    assert forall|i: int| 0 <= i <= ons.len() implies held_count(swept.0, channel, note)
        + #[trigger] note_balance(ons.take(i), channel, note) >= 0 by {
        if i == 0 {
            assert(ons.take(i) =~= none);
        } else {
            assert(ons.take(i) =~= ons);
        }
    }
    assert(accounts_note(swept.0, ons, swept.0.push(added), channel, note));
    lemma_accounts_compose(
        active,
        note_offs(swept.1, timing),
        swept.0,
        ons,
        swept.0.push(added),
        channel,
        note,
    );
    assert(note_offs(swept.1, timing).push(on) =~= note_offs(swept.1, timing) + ons);
}

/// Releasing the due notes of a sample sends one note-off for each.
proof fn lemma_release_accounts(active: Seq<ActiveNote>, offset: u32, base: int, channel: u8, note: u8)
    ensures
        accounts_note(
            active,
            release_effect(active, offset, base).1,
            release_effect(active, offset, base).0,
            channel,
            note,
        ),
{
    let f = due_at(base + offset);
    lemma_sweep_held(active, 0, f, channel, note);
    lemma_accounts_release(active, sweep(active, 0, f).0, sweep(active, 0, f).1, offset, channel, note);
}

proof fn lemma_sample_accounts(
    plan: PlanView,
    k: int,
    current: Option<usize>,
    active: Seq<ActiveNote>,
    channel: u8,
    note: u8,
)
    ensures
        accounts_note(
            active,
            sample_effect(plan, k, current, active).2,
            sample_effect(plan, k, current, active).1,
            channel,
            note,
        ),
{
    let idx = plan.step_at[k] % 16;
    let new_step = current != Some(idx);
    let step = plan.steps[idx as int];
    let timing = note_timing(plan, k, idx as int);
    let off = (plan.base + timing + plan.gate_samples[idx as int]) as u64;
    let triggered = if new_step && step.active {
        trigger_effect(active, step, timing as u32, off)
    } else {
        (active, Seq::empty())
    };
    if new_step && step.active {
        lemma_trigger_accounts(active, step, timing as u32, off, channel, note);
    } else {
        lemma_accounts_nothing(active, channel, note);
    }
    let released = release_effect(triggered.0, k as u32, plan.base);
    lemma_release_accounts(triggered.0, k as u32, plan.base, channel, note);
    lemma_accounts_compose(active, triggered.1, triggered.0, released.1, released.0, channel, note);
}

/// Playing the first `k` samples of a block sends a note-off only for a sounding note,
/// and the notes left sounding are those before plus the note-ons minus the note-offs.
pub proof fn lemma_block_accounts(
    plan: PlanView,
    k: nat,
    current: Option<usize>,
    active: Seq<ActiveNote>,
    channel: u8,
    note: u8,
)
    ensures
        accounts_note(
            active,
            block_effect(plan, k, current, active).2,
            block_effect(plan, k, current, active).1,
            channel,
            note,
        ),
    decreases k,
{
    if k == 0 {
        lemma_accounts_nothing(active, channel, note);
    } else {
        lemma_block_accounts(plan, (k - 1) as nat, current, active, channel, note);
        let before = block_effect(plan, (k - 1) as nat, current, active);
        lemma_sample_accounts(plan, k - 1, before.0, before.1, channel, note);
        let last = sample_effect(plan, k - 1, before.0, before.1);
        lemma_accounts_compose(active, before.2, before.1, last.2, last.1, channel, note);
    }
}

/// Starting a block sends a note-off only for a sounding note, keeps the count of
/// sounding notes, and leaves a stopped sequencer silent.
pub proof fn lemma_begin_accounts(
    m: SequencerView,
    playing: bool,
    host_beat_bits: u64,
    host_advanced: bool,
    host_jumped: bool,
    channel: u8,
    note: u8,
)
    requires
        stopped_is_silent(m),
    ensures
        ({
            let r = begin_effect(m, playing, host_beat_bits, host_advanced, host_jumped);
            &&& accounts_note(m.active, r.1, r.0.active, channel, note)
            &&& stopped_is_silent(r.0)
            &&& r.2 is Some ==> r.0.running
        }),
{
    let r = begin_effect(m, playing, host_beat_bits, host_advanced, host_jumped);
    let empty = Seq::<ActiveNote>::empty();
    if !m.running {
        assert(m.active =~= empty);
        lemma_accounts_nothing(empty, channel, note);
    } else if !playing || r.1.len() > 0 {
        lemma_accounts_release(m.active, empty, m.active, 0, channel, note);
    } else {
        lemma_accounts_nothing(m.active, channel, note);
    }
}

/// One processing call sends a note-off only for a sounding note and keeps the count
/// of sounding notes; a stopped sequencer stays silent, and a stopped transport leaves a
/// freshly reset sequencer.
pub proof fn lemma_process_accounts(m: SequencerView, c: ProcessCall, channel: u8, note: u8)
    requires
        stopped_is_silent(m),
    ensures
        accounts_note(m.active, process_effect(m, c).1, process_effect(m, c).0.active, channel, note),
        stopped_is_silent(process_effect(m, c).0),
        !c.playing ==> process_effect(m, c).0 == fresh_view(),
{
    lemma_begin_accounts(m, c.playing, c.host_beat_bits, c.host_advanced, c.host_jumped, channel, note);
    let b = begin_effect(m, c.playing, c.host_beat_bits, c.host_advanced, c.host_jumped);
    if b.2 is Some {
        let plan = PlanView {
            step_at: c.step_at,
            steps: c.steps,
            swing_delay: c.swing_delay,
            gate_samples: c.gate_samples,
            base: b.0.samples_processed as int,
            len: c.step_at.len() as int,
        };
        lemma_block_accounts(plan, c.step_at.len(), b.0.current_step, b.0.active, channel, note);
        let r = block_effect(plan, c.step_at.len(), b.0.current_step, b.0.active);
        lemma_accounts_compose(m.active, b.1, b.0.active, r.2, r.1, channel, note);
    }
}

/// Over any run of processing calls (with no reset in between) from a sequencer whose
/// stop left it silent, each note-off answers an earlier note-on of its pitch and
/// channel, and the notes left sounding are those from before plus the note-ons minus
/// the note-offs.
pub proof fn lemma_run_accounts(m: SequencerView, calls: Seq<ProcessCall>)
    requires
        stopped_is_silent(m),
    ensures
        accounts_for(m.active, process_run(m, calls).1, process_run(m, calls).0.active),
        stopped_is_silent(process_run(m, calls).0),
    decreases calls.len(),
{
    if calls.len() == 0 {
        assert forall|channel: u8, note: u8| #[trigger]
            accounts_note(m.active, Seq::empty(), m.active, channel, note) by {
            lemma_accounts_nothing(m.active, channel, note);
        }
    } else {
        lemma_run_accounts(m, calls.drop_last());
        let before = process_run(m, calls.drop_last());
        let last = process_effect(before.0, calls.last());
        assert forall|channel: u8, note: u8| #[trigger]
            accounts_note(m.active, before.1 + last.1, last.0.active, channel, note) by {
            assert(accounts_note(m.active, before.1, before.0.active, channel, note));
            lemma_process_accounts(before.0, calls.last(), channel, note);
            lemma_accounts_compose(m.active, before.1, before.0.active, last.1, last.0.active, channel, note);
        }
        lemma_process_accounts(before.0, calls.last(), 0, 0);
    }
}

/// From a new sequencer, any run of processing calls (with no reset in between) that ends
/// on a stopped transport sends, for every pitch and channel, as many note-offs as
/// note-ons, never more note-offs than note-ons up to any point, and leaves a freshly
/// reset sequencer with nothing sounding.
pub proof fn lemma_stopped_run_balances_notes(calls: Seq<ProcessCall>)
    requires
        calls.len() > 0,
        !calls.last().playing,
    ensures
        ({
            let r = process_run(fresh_view(), calls);
            &&& r.0 == fresh_view()
            &&& forall|channel: u8, note: u8| #[trigger] note_balance(r.1, channel, note) == 0
            &&& forall|channel: u8, note: u8, i: int|
                0 <= i <= r.1.len() ==> #[trigger] note_balance(r.1.take(i), channel, note) >= 0
        }),
{
    let r = process_run(fresh_view(), calls);
    let empty = Seq::<ActiveNote>::empty();
    assert(fresh_view().active =~= empty);
    lemma_run_accounts(fresh_view(), calls);
    lemma_run_accounts(fresh_view(), calls.drop_last());
    let before = process_run(fresh_view(), calls.drop_last());
    lemma_process_accounts(before.0, calls.last(), 0, 0);
    assert(r.0 == fresh_view());
    assert forall|channel: u8, note: u8| #[trigger] note_balance(r.1, channel, note) == 0 by {
        assert(accounts_note(empty, r.1, r.0.active, channel, note));
    }
    assert forall|channel: u8, note: u8, i: int| 0 <= i <= r.1.len() implies #[trigger] note_balance(
        r.1.take(i),
        channel,
        note,
    ) >= 0 by {
        assert(accounts_note(empty, r.1, r.0.active, channel, note));
    }
}

} // verus!
