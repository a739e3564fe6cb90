//! Diagnostics shared between the audio thread and the editor: the last transport
//! seen and the outcome of the last MIDI export.
//!
//! The transport tempo and beat position are kept as the bit patterns of their `f64`
//! values; the state only stores and returns them.

use vstd::prelude::*;

verus! {

/// Bit pattern of the tempo `120.0` (beats per minute) shown before any transport is seen.
pub const DEFAULT_TEMPO_BITS: u64 = 0x405E_0000_0000_0000;

/// Where the last MIDI export stands.
#[derive(Debug, Clone, PartialEq, Eq, Structural)]
pub enum ExportStatus {
    Idle,
    Pending,
    Cancelled,
    Success,
    Error,
}

/// The name of an export status, as shown in the debug panel and snapshot.
pub open spec fn status_name(status: ExportStatus) -> Seq<char> {
    match status {
        ExportStatus::Idle => "idle"@,
        ExportStatus::Pending => "pending"@,
        ExportStatus::Cancelled => "cancelled"@,
        ExportStatus::Success => "success"@,
        ExportStatus::Error => "error"@,
    }
}

impl ExportStatus {
    /// The lower-case name of the status.
    pub fn as_str(&self) -> (name: &'static str)
        ensures
            name@ == status_name(*self),
    {
        match self {
            ExportStatus::Idle => "idle",
            ExportStatus::Pending => "pending",
            ExportStatus::Cancelled => "cancelled",
            ExportStatus::Success => "success",
            ExportStatus::Error => "error",
        }
    }

    /// A copy of the status.
    fn copied(&self) -> (s: ExportStatus)
        ensures
            s == *self,
    {
        match self {
            ExportStatus::Idle => ExportStatus::Idle,
            ExportStatus::Pending => ExportStatus::Pending,
            ExportStatus::Cancelled => ExportStatus::Cancelled,
            ExportStatus::Success => ExportStatus::Success,
            ExportStatus::Error => ExportStatus::Error,
        }
    }
}

/// The outcome of the last MIDI export: its status, the file it went to, and the error.
#[derive(Debug, Clone, PartialEq, Eq)]
pub struct ExportDebugInfo {
    pub status: ExportStatus,
    pub path: Option<String>,
    pub error: Option<String>,
}

/// The export outcome as plain values.
pub struct ExportView {
    pub status: ExportStatus,
    pub path: Option<Seq<char>>,
    pub error: Option<Seq<char>>,
}

/// The characters of an optional string.
pub open spec fn opt_chars(s: Option<String>) -> Option<Seq<char>> {
    match s {
        Some(s) => Some(s@),
        None => None,
    }
}

impl View for ExportDebugInfo {
    type V = ExportView;

    open spec fn view(&self) -> ExportView {
        ExportView { status: self.status, path: opt_chars(self.path), error: opt_chars(self.error) }
    }
}

/// The outcome before any export: idle, with no path and no error.
pub open spec fn idle_export() -> ExportView {
    ExportView { status: ExportStatus::Idle, path: None, error: None }
}

impl Default for ExportDebugInfo {
    fn default() -> (info: Self)
        ensures
            info@ == idle_export(),
    {
        ExportDebugInfo { status: ExportStatus::Idle, path: None, error: None }
    }
}

/// A copy of an optional string.
fn clone_opt_string(s: &Option<String>) -> (c: Option<String>)
    ensures
        c == *s,
{
    match s {
        Some(s) => Some(s.clone()),
        None => None,
    }
}

/// The diagnostics as plain values.
pub struct DebugView {
    pub transport_playing: bool,
    pub transport_tempo_bits: u64,
    pub has_pos_beats: bool,
    pub transport_pos_beats_bits: u64,
    pub export: ExportView,
}

/// The diagnostics after the transport update `(playing, tempo_bits, pos_beats_bits)`:
/// a missing beat position clears the flag and keeps the last stored bits.
pub open spec fn with_transport(
    d: DebugView,
    playing: bool,
    tempo_bits: u64,
    pos_beats_bits: Option<u64>,
) -> DebugView {
    DebugView {
        transport_playing: playing,
        transport_tempo_bits: tempo_bits,
        has_pos_beats: pos_beats_bits is Some,
        transport_pos_beats_bits: match pos_beats_bits {
            Some(b) => b,
            None => d.transport_pos_beats_bits,
        },
        ..d
    }
}

/// The diagnostics with the export outcome replaced.
pub open spec fn with_export(d: DebugView, export: ExportView) -> DebugView {
    DebugView { export, ..d }
}

/// The beat position that the diagnostics report: the stored bits when there is one.
pub open spec fn reported_pos_beats(d: DebugView) -> Option<u64> {
    if d.has_pos_beats {
        Some(d.transport_pos_beats_bits)
    } else {
        None
    }
}

/// What the diagnostics report is what was last written: the transport reads back the
/// last update (a beat position only when one was given) and leaves the export outcome
/// alone, and an export outcome replaces the previous one whatever it was, leaving the
/// transport alone.
pub proof fn lemma_debug_reads_last_write(
    d: DebugView,
    other: DebugView,
    playing: bool,
    tempo_bits: u64,
    pos_beats_bits: Option<u64>,
    export: ExportView,
)
    ensures
        with_transport(d, playing, tempo_bits, pos_beats_bits).transport_playing == playing,
        with_transport(d, playing, tempo_bits, pos_beats_bits).transport_tempo_bits == tempo_bits,
        reported_pos_beats(with_transport(d, playing, tempo_bits, pos_beats_bits))
            == pos_beats_bits,
        with_transport(d, playing, tempo_bits, pos_beats_bits).export == d.export,
        with_export(d, export).export == with_export(other, export).export,
        with_export(d, export).transport_playing == d.transport_playing,
        with_export(d, export).transport_tempo_bits == d.transport_tempo_bits,
        reported_pos_beats(with_export(d, export)) == reported_pos_beats(d),
{
}

/// Whether an export outcome is consistent: an error message exactly when the export
/// failed, a path whenever it succeeded, and no path while idle, pending or cancelled.
pub open spec fn export_consistent(e: ExportView) -> bool {
    &&& (e.error is Some <==> e.status == ExportStatus::Error)
    &&& (e.status == ExportStatus::Success ==> e.path is Some)
    &&& (e.status == ExportStatus::Idle || e.status == ExportStatus::Pending || e.status
        == ExportStatus::Cancelled) ==> e.path is None
}

/// Every export outcome that the diagnostics can hold is consistent: the one before any
/// export, and each one that marking an export pending, cancelled, succeeded or failed
/// writes; a transport update leaves the outcome as it was.
pub proof fn lemma_export_outcomes_consistent(
    d: DebugView,
    playing: bool,
    tempo_bits: u64,
    pos_beats_bits: Option<u64>,
    path: Seq<char>,
    failed_path: Option<Seq<char>>,
    error: Seq<char>,
)
    ensures
        export_consistent(idle_export()),
        export_consistent(ExportView { status: ExportStatus::Pending, path: None, error: None }),
        export_consistent(ExportView { status: ExportStatus::Cancelled, path: None, error: None }),
        export_consistent(ExportView { status: ExportStatus::Success, path: Some(path), error: None }),
        export_consistent(
            ExportView { status: ExportStatus::Error, path: failed_path, error: Some(error) },
        ),
        with_transport(d, playing, tempo_bits, pos_beats_bits).export == d.export,
{
}

/// Transport and export diagnostics.
pub struct SharedDebugState {
    transport_playing: bool,
    transport_tempo_bits: u64,
    has_pos_beats: bool,
    transport_pos_beats_bits: u64,
    export: ExportDebugInfo,
}

impl View for SharedDebugState {
    type V = DebugView;

    closed spec fn view(&self) -> DebugView {
        DebugView {
            transport_playing: self.transport_playing,
            transport_tempo_bits: self.transport_tempo_bits,
            has_pos_beats: self.has_pos_beats,
            transport_pos_beats_bits: self.transport_pos_beats_bits,
            export: self.export@,
        }
    }
}

impl SharedDebugState {
    /// The export outcome held is always consistent.
    #[verifier::type_invariant]
    closed spec fn holds_consistent_export(self) -> bool {
        export_consistent(self.export@)
    }

    /// Stopped transport at 120 beats per minute, no beat position, no export yet.
    pub fn new() -> (d: Self)
        ensures
            d@ == (DebugView {
                transport_playing: false,
                transport_tempo_bits: DEFAULT_TEMPO_BITS,
                has_pos_beats: false,
                transport_pos_beats_bits: 0,
                export: idle_export(),
            }),
    {
        SharedDebugState {
            transport_playing: false,
            transport_tempo_bits: DEFAULT_TEMPO_BITS,
            has_pos_beats: false,
            transport_pos_beats_bits: 0,
            export: ExportDebugInfo::default(),
        }
    }

    /// Records the transport: playing, tempo bits and (optional) beat position bits.
    pub fn update_transport(&mut self, playing: bool, tempo_bits: u64, pos_beats_bits: Option<u64>)
        ensures
            final(self)@ == with_transport(old(self)@, playing, tempo_bits, pos_beats_bits),
    {
        proof {
            use_type_invariant(&*self);
        }
        self.transport_playing = playing;
        self.transport_tempo_bits = tempo_bits;
        match pos_beats_bits {
            Some(bits) => {
                self.has_pos_beats = true;
                self.transport_pos_beats_bits = bits;
            },
            None => {
                self.has_pos_beats = false;
            },
        }
    }

    /// Whether the transport was playing.
    pub fn transport_playing(&self) -> (playing: bool)
        ensures
            playing == self@.transport_playing,
    {
        self.transport_playing
    }

    /// Bit pattern of the last tempo.
    pub fn transport_tempo_bits(&self) -> (bits: u64)
        ensures
            bits == self@.transport_tempo_bits,
    {
        self.transport_tempo_bits
    }

    /// Bit pattern of the last beat position, when the transport gave one.
    pub fn transport_pos_beats_bits(&self) -> (bits: Option<u64>)
        ensures
            bits == reported_pos_beats(self@),
    {
        if self.has_pos_beats {
            Some(self.transport_pos_beats_bits)
        } else {
            None
        }
    }

    /// A copy of the export outcome.
    pub fn export_info(&self) -> (info: ExportDebugInfo)
        ensures
            info@ == self@.export,
            export_consistent(info@),
    {
        proof {
            use_type_invariant(self);
        }
        ExportDebugInfo {
            status: self.export.status.copied(),
            path: clone_opt_string(&self.export.path),
            error: clone_opt_string(&self.export.error),
        }
    }

    /// Marks an export as started.
    pub fn set_export_pending(&mut self)
        ensures
            final(self)@ == with_export(
                old(self)@,
                ExportView { status: ExportStatus::Pending, path: None, error: None },
            ),
    {
        self.export = ExportDebugInfo { status: ExportStatus::Pending, path: None, error: None };
    }

    /// Marks an export as cancelled (no file chosen).
    pub fn set_export_cancelled(&mut self)
        ensures
            final(self)@ == with_export(
                old(self)@,
                ExportView { status: ExportStatus::Cancelled, path: None, error: None },
            ),
    {
        self.export = ExportDebugInfo { status: ExportStatus::Cancelled, path: None, error: None };
    }

    /// Marks an export to `path` as done.
    pub fn set_export_succeeded(&mut self, path: String)
        ensures
            final(self)@ == with_export(
                old(self)@,
                ExportView { status: ExportStatus::Success, path: Some(path@), error: None },
            ),
    {
        self.export = ExportDebugInfo { status: ExportStatus::Success, path: Some(path), error: None };
    }

    /// Marks an export (to `path`, when one was chosen) as failed with `error`.
    pub fn set_export_failed(&mut self, path: Option<String>, error: String)
        ensures
            final(self)@ == with_export(
                old(self)@,
                ExportView { status: ExportStatus::Error, path: opt_chars(path), error: Some(error@) },
            ),
    {
        self.export = ExportDebugInfo { status: ExportStatus::Error, path: path, error: Some(error) };
    }
}

} // verus!
