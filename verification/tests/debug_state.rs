use dark_bassline::step_indicator::{step_shade, StepShade};
use dark_bassline::debug_state::{ExportDebugInfo, ExportStatus, SharedDebugState, DEFAULT_TEMPO_BITS};

#[test]
fn export_status_roundtrip_keeps_latest_result() {
    let mut debug = SharedDebugState::new();

    debug.set_export_pending();
    debug.set_export_succeeded("C:/tmp/test.mid".to_string());

    let info = debug.export_info();
    assert_eq!(info.status, ExportStatus::Success);
    assert_eq!(info.path.as_deref(), Some("C:/tmp/test.mid"));
    assert_eq!(info.error, None);
}

#[test]
fn new_state_is_idle_at_default_tempo() {
    let debug = SharedDebugState::new();
    assert!(!debug.transport_playing());
    assert_eq!(f64::from_bits(debug.transport_tempo_bits()), 120.0);
    assert_eq!(debug.transport_tempo_bits(), DEFAULT_TEMPO_BITS);
    assert_eq!(debug.transport_pos_beats_bits(), None);
    assert_eq!(debug.export_info(), ExportDebugInfo::default());
    assert_eq!(debug.export_info().status, ExportStatus::Idle);
}

#[test]
fn transport_reads_back_the_last_update() {
    let mut debug = SharedDebugState::new();
    debug.update_transport(true, 128.0f64.to_bits(), Some(12.5f64.to_bits()));
    assert!(debug.transport_playing());
    assert_eq!(f64::from_bits(debug.transport_tempo_bits()), 128.0);
    assert_eq!(debug.transport_pos_beats_bits().map(f64::from_bits), Some(12.5));

    debug.update_transport(false, 90.0f64.to_bits(), None);
    assert!(!debug.transport_playing());
    assert_eq!(f64::from_bits(debug.transport_tempo_bits()), 90.0);
    assert_eq!(debug.transport_pos_beats_bits(), None);
}

#[test]
fn each_export_outcome_replaces_the_previous_one() {
    let mut debug = SharedDebugState::new();
    debug.set_export_failed(Some("C:/tmp/fail.mid".to_string()), "disk full".to_string());
    let info = debug.export_info();
    assert_eq!(info.status, ExportStatus::Error);
    assert_eq!(info.path.as_deref(), Some("C:/tmp/fail.mid"));
    assert_eq!(info.error.as_deref(), Some("disk full"));

    debug.set_export_cancelled();
    let info = debug.export_info();
    assert_eq!(info.status, ExportStatus::Cancelled);
    assert_eq!(info.path, None);
    assert_eq!(info.error, None);

    debug.set_export_failed(None, "no device".to_string());
    assert_eq!(debug.export_info().path, None);
    assert_eq!(debug.export_info().error.as_deref(), Some("no device"));

    debug.set_export_pending();
    assert_eq!(debug.export_info().status, ExportStatus::Pending);
    assert_eq!(debug.export_info().error, None);
}

#[test]
fn status_names() {
    assert_eq!(ExportStatus::Idle.as_str(), "idle");
    assert_eq!(ExportStatus::Pending.as_str(), "pending");
    assert_eq!(ExportStatus::Cancelled.as_str(), "cancelled");
    assert_eq!(ExportStatus::Success.as_str(), "success");
    assert_eq!(ExportStatus::Error.as_str(), "error");
}

#[test]
fn step_indicator_marks_current_step_and_downbeats() {
    assert_eq!(step_shade(5, 5, true), StepShade::Current);
    assert_eq!(step_shade(4, 4, true), StepShade::Current);
    assert_eq!(step_shade(4, 4, false), StepShade::Downbeat);
    assert_eq!(step_shade(5, 5, false), StepShade::Inactive);
    assert_eq!(step_shade(8, 3, true), StepShade::Downbeat);
    assert_eq!(step_shade(9, 3, true), StepShade::Inactive);
    let highlighted = (0..16).filter(|&i| step_shade(i, 7, true) == StepShade::Current).count();
    assert_eq!(highlighted, 1);
}

#[test]
fn export_outcome_stays_consistent_through_setters() {
    let mut d = SharedDebugState::new();
    let check = |d: &SharedDebugState| {
        let i = d.export_info();
        assert_eq!(i.error.is_some(), i.status == ExportStatus::Error);
        if i.status == ExportStatus::Success {
            assert!(i.path.is_some());
        }
        if matches!(i.status, ExportStatus::Idle | ExportStatus::Pending | ExportStatus::Cancelled) {
            assert!(i.path.is_none());
        }
        assert_eq!(d.export_info(), i);
    };
    check(&d);
    d.set_export_failed(Some("a.mid".to_string()), "disk full".to_string());
    check(&d);
    d.set_export_pending();
    check(&d);
    d.update_transport(true, 0, None);
    check(&d);
    d.set_export_succeeded("b.mid".to_string());
    check(&d);
    d.set_export_cancelled();
    check(&d);
}
