//! The state of the receiver window.
use openhoshimi::image::{build, ImageReassembler};
use openhoshimi::receiver::{
    mode_label, offer_payload, AlignmentState, BottomTab, DiagnosticLevel, DownlinkChoice,
    ExportOutcome, InputMode, PipelineStats, Receiver, RxEvent, MAX_DIAGNOSTICS, MAX_FRAMES,
};
use openhoshimi::rows::{Elapsed, FrameKind, FrameRow};
use openhoshimi::satellite::{
    ByteOrderDef, ImageDecoderDef, ImageDef, ImageField, PixelFormatDef,
};
use openhoshimi::sstv::{decode_stub, SstvMode};

fn row(index: usize) -> FrameRow {
    FrameRow {
        index,
        time: Elapsed { secs: 0, nanos: 0 },
        source: "A".to_string(),
        destination: "B".to_string(),
        kind: FrameKind::Tlm,
        rssi_dbm: None,
        raw: vec![1],
        telemetry: vec![],
    }
}

fn last_note(r: &Receiver) -> (DiagnosticLevel, &str) {
    let entry = r.diagnostics.back().expect("entry");
    (entry.level, entry.text.as_str())
}

#[test]
fn table_holds_the_newest_frames() {
    let mut r = Receiver::new();
    for index in 1..=MAX_FRAMES + 3 {
        r.apply(RxEvent::Frame(row(index)));
    }
    assert_eq!(r.frames.len(), MAX_FRAMES);
    assert_eq!(r.frames[0].index, 4);
    assert_eq!(r.frames[MAX_FRAMES - 1].index, MAX_FRAMES + 3);
    assert_eq!(r.frames_seen, MAX_FRAMES + 3);
    assert_eq!(r.selected_frame, Some(1));
    assert!(r.selected_frame_row().is_none());
    r.selected_frame = Some(9);
    assert_eq!(r.selected_frame_row().map(|f| f.index), Some(9));
}

#[test]
fn log_is_bounded_and_counted() {
    let mut r = Receiver::new();
    for k in 0..MAX_DIAGNOSTICS + 5 {
        r.push_diagnostic(DiagnosticLevel::Info, format!("entry {k}"));
    }
    r.push_diagnostic(DiagnosticLevel::Error, "boom".to_string());
    r.push_diagnostic(DiagnosticLevel::Warn, "hm".to_string());
    assert_eq!(r.diagnostics.len(), MAX_DIAGNOSTICS);
    assert_eq!(r.diagnostics[0].text, "entry 7");
    assert_eq!(r.diagnostic_counts(), (MAX_DIAGNOSTICS - 2, 1, 1));
    r.clear_diagnostics();
    assert_eq!(r.diagnostic_counts(), (0, 0, 0));
}

#[test]
fn events_set_the_status_line() {
    let mut r = Receiver::new();
    r.apply(RxEvent::Dropped("lost".to_string()));
    assert_eq!((r.status.as_str(), r.dropped_frames), ("lost", 1));
    assert_eq!(last_note(&r), (DiagnosticLevel::Warn, "lost"));
    r.apply(RxEvent::Progress { processed: 5, total: Some(9) });
    assert_eq!(r.status, "progress 5 / 9");
    r.apply(RxEvent::Progress { processed: 6, total: None });
    assert_eq!(r.status, "progress 6");
    r.apply(RxEvent::SourceInfo { label: "a.wav".to_string(), sample_rate: 96_000 });
    assert_eq!((r.status.as_str(), r.input_rate), ("a.wav", 96_000));
    r.running = true;
    r.apply(RxEvent::Stopped);
    assert!(!r.running);
    assert_eq!(r.status, "RX stopped");
}

#[test]
fn alignment_is_followed() {
    let mut r = Receiver::new();
    r.apply(RxEvent::AlignmentProgress { current: 3 });
    assert_eq!(r.alignment_state, AlignmentState::Idle);
    r.apply(RxEvent::AlignmentStarted { total: 40 });
    assert_eq!(r.status, "aligning IQ (40 candidates)");
    r.apply(RxEvent::AlignmentProgress { current: 3 });
    assert_eq!(r.alignment_state, AlignmentState::Aligning { current: 3, total: 40 });
    r.apply(RxEvent::AlignmentReady { tuning: "12.5".to_string(), sample_skip: 7, frames: 2 });
    assert_eq!(r.status, "IQ alignment ready: tuning=12.5 Hz skip=7 prefix_frames=2");
    assert_eq!(r.alignment_state, AlignmentState::Ready);
    r.apply(RxEvent::AlignmentFailed("no".to_string()));
    assert_eq!(last_note(&r), (DiagnosticLevel::Error, "IQ alignment failed: no"));
    assert_eq!(r.alignment_state, AlignmentState::Failed);
}

#[test]
fn missed_payloads_are_logged_once() {
    let mut r = Receiver::new();
    let bytes: Vec<u8> = (0..20).collect();
    r.apply(RxEvent::ImagePayload { bytes: bytes.clone(), taken: None });
    assert_eq!((r.image_payload_hits, r.image_payload_misses), (0, 0));
    for _ in 0..3 {
        r.apply(RxEvent::ImagePayload { bytes: bytes.clone(), taken: Some(false) });
    }
    assert_eq!(r.image_payload_misses, 3);
    assert_eq!(r.diagnostics.len(), 1);
    assert_eq!(
        last_note(&r).1,
        "image: payload did not match header signature; len=20 \
         prefix=[00 01 02 03 04 05 06 07 08 09 0A 0B 0C 0D 0E 0F]"
    );
    r.image_payload_hits = u32::MAX;
    r.apply(RxEvent::ImagePayload { bytes, taken: Some(true) });
    assert_eq!(r.image_payload_hits, u32::MAX);
    assert!(r.image_dirty);
}

#[test]
fn sstv_image_opens_the_image_view() {
    let mut r = Receiver::new();
    r.apply(RxEvent::Sstv(decode_stub(SstvMode::Robot36)));
    assert_eq!(r.bottom_tab, BottomTab::Image);
    assert!(r.sstv_dirty);
    assert_eq!(last_note(&r).1, "SSTV: decoded Robot36 image (320x240)");
    assert_eq!(mode_label(SstvMode::Pd120), "Pd120");
}

#[test]
fn polling_counts_samples_and_keeps_the_last_row() {
    let mut r = Receiver::new();
    let row_at = r.poll_events(vec![
        RxEvent::Samples(10),
        RxEvent::Frame(row(1)),
        RxEvent::Samples(32),
        RxEvent::Stats(PipelineStats {
            total_bits: 8,
            sync_attempts: None,
            sync_locked: None,
            frames_emitted: 0,
            crc_ok: None,
            crc_fail: None,
        }),
    ]);
    assert_eq!(row_at, Some(2));
    assert_eq!(r.samples_processed, 42);
    assert_eq!(r.frames_seen, 1);
    assert_eq!(r.latest_stats.map(|s| s.total_bits), Some(8));
    assert_eq!(r.poll_events(vec![]), None);
    r.clear_frames();
    assert_eq!((r.samples_processed, r.frames_seen, r.frames.len()), (0, 0, 0));
    assert!(r.latest_stats.is_none() && r.selected_frame.is_none());
}

#[test]
fn start_is_refused_for_a_reason() {
    let choice = |supported| Some(DownlinkChoice { label: "beacon".to_string(), supported });
    let mut r = Receiver::default();
    assert!(!r.start(false, &None, InputMode::Soundcard, false));
    assert_eq!(r.status, "no satellite selected");
    assert!(!r.start(true, &None, InputMode::Soundcard, false));
    assert_eq!(r.status, "no downlink selected");
    assert!(!r.start(true, &choice(false), InputMode::Soundcard, false));
    assert_eq!(last_note(&r), (DiagnosticLevel::Error, "selected downlink is not supported: beacon"));
    assert!(!r.start(true, &choice(true), InputMode::WavFile, false));
    assert_eq!(last_note(&r), (DiagnosticLevel::Warn, "no WAV file selected"));
    assert!(r.start(true, &choice(true), InputMode::WavFile, true));
    assert!(r.running);
    assert_eq!(r.status, "RX started");
    assert_eq!(last_note(&r).1, "started beacon with audio file");
    assert!(!r.start(true, &choice(true), InputMode::Soundcard, true));
    assert!(r.stop(true));
    assert!(!r.running);
    assert!(!r.stop(false));
}

#[test]
fn exports_are_noted() {
    let mut r = Receiver::new();
    r.note_export(&ExportOutcome::Empty);
    assert_eq!(r.status, "no frames to export");
    r.note_export(&ExportOutcome::Saved { count: 3, label: "f.txt".to_string() });
    assert_eq!(r.status, "exported 3 frames to f.txt");
    assert_eq!(r.last_export_status.as_deref(), Some("exported 3 frames"));
    r.note_export(&ExportOutcome::Failed { reason: "disk".to_string() });
    assert_eq!(r.status, "export failed: disk");
    assert_eq!(r.last_export_status.as_deref(), Some("export failed"));
}

fn raw_images(chunk_bytes: usize) -> ImageDef {
    ImageDef::Geoscan {
        header_signature: "AA".to_string(),
        offset_field: ImageField { at: 1, len: 2, endian: ByteOrderDef::Be },
        chunk_at: 3,
        chunk_bytes,
        decoder: ImageDecoderDef::Raw,
        width: 8,
        height: 8,
        pixel_format: PixelFormatDef::Gray8,
    }
}

#[test]
fn another_downlink_brings_another_reassembler() {
    let mut r = Receiver::new();
    r.bottom_tab = BottomTab::Image;
    r.image_payload_misses = 4;
    assert!(r.refresh_image(&Some(raw_images(8))).is_some());
    assert_eq!((r.image_payload_misses, r.bottom_tab), (0, BottomTab::Image));
    assert!(r.refresh_image(&Some(raw_images(0))).is_none());
    assert_eq!(
        last_note(&r),
        (DiagnosticLevel::Error, "image reassembler init failed: image.chunk_bytes must be > 0")
    );
    r.clear_diagnostics();
    assert!(r.refresh_image(&Some(ImageDef::Sstv {})).is_none());
    assert!(r.diagnostics.is_empty());
    assert!(r.refresh_image(&None).is_none());
    assert_eq!(r.bottom_tab, BottomTab::Frames);
}

#[test]
fn payloads_are_offered() {
    let mut held = Some(build(&raw_images(8)).expect("reassembler"));
    let mut payload = vec![0xAA, 0, 0];
    payload.extend([7u8; 8]);
    assert_eq!(offer_payload(&mut held, &payload), Some(true));
    assert_eq!(offer_payload(&mut held, &[0xBB; 11]), Some(false));
    assert_eq!(held.expect("kept").snapshot().images[0].bytes, [7; 8]);
    assert_eq!(offer_payload(&mut None, &payload), None);
}

#[test]
fn selections_are_said() {
    let mut r = Receiver::new();
    r.satellites_loaded(2, Some("LilacSat-1"), Some("437.200 MHz BPSK"));
    assert_eq!(r.status, "loaded 2 satellite definitions");
    let notes: Vec<&str> = r.diagnostics.iter().map(|e| e.text.as_str()).collect();
    assert_eq!(
        notes,
        [
            "loaded 2 satellite definitions",
            "selected satellite LilacSat-1",
            "selected first supported downlink",
            "selected downlink 437.200 MHz BPSK",
        ]
    );
    r.clear_diagnostics();
    r.satellites_loaded(0, None, None);
    assert_eq!(r.diagnostics.len(), 2);
    assert_eq!(last_note(&r), (DiagnosticLevel::Info, "selected first supported downlink"));
    r.note_selection(None, Some("beacon"));
    assert_eq!(last_note(&r), (DiagnosticLevel::Info, "selected downlink beacon"));
    r.satellites_failed("satellites", "IO error: gone");
    assert_eq!(r.status, "failed to load satellites");
    assert_eq!(
        last_note(&r),
        (DiagnosticLevel::Error, "failed to load satellites from satellites: IO error: gone")
    );
    r.devices_listed(3, false);
    assert_eq!(last_note(&r), (DiagnosticLevel::Info, "soundcard: enumerated 3 input device(s)"));
    r.devices_listed(0, true);
    assert_eq!(last_note(&r).0, DiagnosticLevel::Warn);
}

#[test]
fn inputs_are_chosen() {
    let mut r = Receiver::new();
    r.apply(RxEvent::Frame(row(1)));
    r.apply(RxEvent::AlignmentStarted { total: 3 });
    r.choose_recording("pass.wav");
    assert_eq!(r.source_description, "audio file pass.wav");
    assert_eq!(r.status, "selected audio input pass.wav");
    assert_eq!(r.alignment_state, AlignmentState::Idle);
    assert!(r.frames.is_empty() && r.frames_seen == 0);
    r.choose_soundcard();
    assert_eq!(r.source_description, "soundcard");
    assert_eq!(r.status, "selected soundcard input");
}
