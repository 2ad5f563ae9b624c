//! The decisions of a decoding session.
use openhoshimi::receiver::{InputMode, RxEvent};
use openhoshimi::session::{
    announce_progress, detected_plan, found_notice, kept_from, open_failure, pace_step,
    plan_alignment, plan_carrier, plan_input, plan_path, prefix_len, prefix_notices, retry_notice,
    spectrum_counts, spectrum_due, use_alignment, AlignAction, AlignCheck, AlignEvent, AlignJob,
    AlignPhase, AlignmentKey, AlignmentUse, AudioMode, CarrierSource, DecodeLoop, DecodePace,
    InputKind, InputPath, InputPlan, LoopAction, LoopEvent, LoopReport, OpenStep, PaceStep,
    ReadOutcome, SendOutcome, READ_CHUNK,
};

#[test]
fn inputs_are_planned() {
    let plan = |sstv, input, path, kind, mode| plan_input(sstv, input, path, kind, mode);
    let card = InputMode::Soundcard;
    let file = InputMode::WavFile;
    assert_eq!(plan(true, card, false, None, AudioMode::Auto), Ok(InputPlan::Sstv));
    assert_eq!(
        plan(true, file, false, None, AudioMode::Auto),
        Err("missing audio input path".to_string())
    );
    assert_eq!(
        plan(false, card, false, None, AudioMode::Auto),
        Err("selected downlink is not supported by soundcard input".to_string())
    );
    assert_eq!(
        plan(false, card, false, Some(InputKind::Iq), AudioMode::Fm),
        Ok(InputPlan::SoundcardAudio { fm: true })
    );
    assert_eq!(plan(false, card, false, None, AudioMode::Iq), Ok(InputPlan::SoundcardIq));
    assert_eq!(
        plan(false, card, false, Some(InputKind::Audio), AudioMode::Ssb),
        Ok(InputPlan::SoundcardAudio { fm: false })
    );
    assert_eq!(
        plan(false, file, false, Some(InputKind::Iq), AudioMode::Iq),
        Err("missing WAV input path".to_string())
    );
    assert_eq!(
        plan(false, file, true, Some(InputKind::Iq), AudioMode::Auto),
        Ok(InputPlan::FileDetect)
    );
    assert_eq!(
        plan(false, file, true, Some(InputKind::Iq), AudioMode::Ssb),
        Ok(InputPlan::FileSsb)
    );
    assert_eq!(
        plan(false, file, true, Some(InputKind::FmAudio), AudioMode::Auto),
        Ok(InputPlan::FileAudio { fm: true })
    );
    assert_eq!(
        plan(false, file, true, None, AudioMode::Auto),
        Err("selected downlink is not supported by this input mode".to_string())
    );
    assert_eq!(detected_plan(AudioMode::Auto), InputPlan::FileIq);
    assert_eq!(detected_plan(AudioMode::Fm), InputPlan::FileFm);
    assert_eq!(plan_path(InputPlan::FileIq, true), InputPath::SoftAo40);
    assert_eq!(plan_path(InputPlan::FileSsb, true), InputPath::Iq);
    assert_eq!(plan_path(InputPlan::FileFm, true), InputPath::Audio);
    assert_eq!(open_failure(OpenStep::Detect, "x"), "audio mode auto-detect failed: x");
}

#[test]
fn carriers_have_a_source() {
    assert_eq!(plan_carrier(false, true, 0), Ok(CarrierSource::User));
    assert_eq!(
        plan_carrier(false, false, 48_000),
        Ok(CarrierSource::Estimate { prefix_len: 48_000 })
    );
    assert_eq!(
        plan_carrier(false, false, 800),
        Err("SSB audio carrier auto-estimate: sample rate 800 Hz is too low".to_string())
    );
    assert_eq!(
        plan_carrier(true, true, 48_000),
        Err("SSB mono audio is not supported for AO-40 soft FEC downlinks".to_string())
    );
}

fn built(path: InputPath, pending: usize) -> LoopEvent {
    LoopEvent::Built { path, pending, total: Some(10_000) }
}

#[test]
fn pending_samples_are_worked_off_before_reading() {
    let mut l = DecodeLoop::new(InputMode::WavFile, DecodePace::Fast);
    assert_eq!(l.action(), LoopAction::Build);
    let reports = l.advance(built(InputPath::Iq, READ_CHUNK + 5));
    assert!(matches!(
        reports[..],
        [LoopReport::Source, LoopReport::Progress { processed: 0, total: Some(10_000) }]
    ));
    let mut worked = vec![];
    loop {
        match l.action() {
            LoopAction::CheckStop => {
                l.advance(LoopEvent::StopSwitch(false));
            }
            LoopAction::Work { count, spectrum } => {
                assert_eq!(spectrum, count.min(4096));
                worked.push(count);
                let reports = l.advance(LoopEvent::Worked { processed: 1 });
                assert!(matches!(reports[..], [LoopReport::Stats, LoopReport::Progress { .. }]));
            }
            LoopAction::Read => break,
            other => panic!("unexpected {other:?}"),
        }
    }
    assert_eq!(worked, [READ_CHUNK, 5]);
    l.advance(LoopEvent::Read(ReadOutcome::Samples(0)));
    assert_eq!(l.action(), LoopAction::CheckStop);
    let reports = l.advance(LoopEvent::StopSwitch(true));
    assert!(matches!(reports[..], [LoopReport::Stopped]));
    assert_eq!(l.action(), LoopAction::End);
    assert!(l.advance(LoopEvent::StopSwitch(true)).is_empty());
}

#[test]
fn failures_end_the_loop() {
    let mut l = DecodeLoop::new(InputMode::Soundcard, DecodePace::Realtime);
    assert!(!l.realtime);
    let reports = l.advance(LoopEvent::BuildFailed("no card".to_string()));
    match &reports[..] {
        [LoopReport::Dropped(text), LoopReport::Stopped] => assert_eq!(text, "no card"),
        other => panic!("unexpected {other:?}"),
    }
    let mut l = DecodeLoop::new(InputMode::Soundcard, DecodePace::Fast);
    l.advance(built(InputPath::SoftAo40, 0));
    l.advance(LoopEvent::StopSwitch(false));
    let reports = l.advance(LoopEvent::Read(ReadOutcome::Failed("gone".to_string())));
    match &reports[..] {
        [LoopReport::Dropped(text), LoopReport::Stopped] => {
            assert_eq!(text, "IQ WAV read failed: gone")
        }
        other => panic!("unexpected {other:?}"),
    }
}

#[test]
fn sstv_is_drained_at_the_end_and_paced() {
    let mut l = DecodeLoop::new(InputMode::WavFile, DecodePace::Realtime);
    l.advance(built(InputPath::Sstv, 0));
    l.advance(LoopEvent::StopSwitch(false));
    l.advance(LoopEvent::Read(ReadOutcome::Samples(100)));
    let reports = l.advance(LoopEvent::Worked { processed: 999 });
    assert!(matches!(reports[..], [LoopReport::Progress { processed: 100, .. }]));
    assert_eq!(l.action(), LoopAction::Pace { processed: 100 });
    l.advance(LoopEvent::Paced(true));
    l.advance(LoopEvent::StopSwitch(false));
    l.advance(LoopEvent::Read(ReadOutcome::EndOfStream));
    assert_eq!(l.action(), LoopAction::Finish);
    assert!(matches!(l.advance(LoopEvent::Finished)[..], [LoopReport::Stopped]));
}

#[test]
fn clocks_are_kept() {
    assert_eq!(pace_step(5, 5), PaceStep::Reached);
    assert_eq!(pace_step(0, 30_000_000), PaceStep::Sleep(20_000_000));
    assert_eq!(pace_step(25_000_000, 30_000_000), PaceStep::Sleep(5_000_000));
    assert!(spectrum_due(None));
    assert!(!spectrum_due(Some(32_999_999)));
    assert!(spectrum_due(Some(33_000_000)));
    assert!(spectrum_counts(SendOutcome::Sent));
    assert!(!spectrum_counts(SendOutcome::Full));
    assert!(spectrum_counts(SendOutcome::Disconnected));
}

#[test]
fn known_alignments_are_used_where_they_fit() {
    let key = |same_path, sample_rate| AlignmentKey {
        same_path,
        sample_rate,
        downlink_id: "d".to_string(),
    };
    let id = "d".to_string();
    assert_eq!(use_alignment(&None, 48_000, &id), AlignmentUse::Search);
    assert_eq!(
        use_alignment(&Some((key(true, 48_000), true, 0)), 48_000, &id),
        AlignmentUse::Cached
    );
    assert_eq!(
        use_alignment(&Some((key(true, 48_000), false, 0)), 48_000, &id),
        AlignmentUse::CachedPastPrefix
    );
    assert_eq!(
        use_alignment(&Some((key(false, 48_000), true, 0)), 48_000, &id),
        AlignmentUse::Search
    );
    assert_eq!(
        use_alignment(&Some((key(true, 48_000), true, 0)), 96_000, &id),
        AlignmentUse::Search
    );
    assert_eq!(
        use_alignment(&Some((key(true, 48_000), true, 0)), 48_000, &"e".to_string()),
        AlignmentUse::Search
    );
    assert_eq!(prefix_len(48_000), 384_000);
    assert_eq!((kept_from(3, 10), kept_from(10, 10), kept_from(11, 10)), (3, 10, 10));
    assert_eq!(
        found_notice(true, "1.5", 2, 3),
        "IQ alignment (cached): tuning=1.5 Hz skip=2 prefix_frames=3"
    );
    assert_eq!(found_notice(false, "1.5", 2, 3), "IQ alignment: tuning=1.5 Hz skip=2 prefix_frames=3");
    let (reading, scoring) = prefix_notices(48_000, 7);
    assert_eq!(reading, "reading 8 s IQ prefix at 48000 Hz\u{2026}");
    assert_eq!(scoring, "scoring IQ alignment over 7 samples\u{2026}");
}

#[test]
fn recordings_are_aligned_where_it_helps() {
    let file = InputMode::WavFile;
    let iq = Some(InputKind::Iq);
    assert_eq!(plan_alignment(true, file, iq, AudioMode::Auto), AlignCheck::AlignIfIq);
    assert_eq!(plan_alignment(true, file, iq, AudioMode::Iq), AlignCheck::Align);
    assert_eq!(plan_alignment(true, file, iq, AudioMode::Ssb), AlignCheck::Skip);
    assert_eq!(plan_alignment(false, file, iq, AudioMode::Iq), AlignCheck::Skip);
    assert_eq!(plan_alignment(true, InputMode::Soundcard, iq, AudioMode::Iq), AlignCheck::Skip);
    assert_eq!(plan_alignment(true, file, None, AudioMode::Iq), AlignCheck::Skip);
}

#[test]
fn alignment_tries_again_on_all_samples() {
    let (mut job, first) = AlignJob::new();
    assert!(matches!(first, AlignAction::Open));
    let next = job.advance(AlignEvent::Opened { sample_rate: 100, linear: true });
    assert!(matches!(next, AlignAction::ReadPrefix { len: 800 }));
    let next = job.advance(AlignEvent::Prefix { len: 700, scorer_len: 100 });
    assert!(matches!(next, AlignAction::Score { len: 100, again: false }));
    let next = job.advance(AlignEvent::Scored(Some((5, 0))));
    assert!(matches!(next, AlignAction::Score { len: 700, again: true }));
    let next = job.advance(AlignEvent::Scored(Some((900, 0))));
    assert!(matches!(next, AlignAction::Ready { from: 700, frames: 0 }));
    assert_eq!(job.phase, AlignPhase::Done);
    assert!(matches!(job.advance(AlignEvent::Estimated), AlignAction::Wait));
    assert_eq!(
        retry_notice("1.0", 700, 100),
        "alignment scorer found 0 frames in 1.0 s slice; retrying with full 7 s prefix"
    );
}

#[test]
fn alignment_fails_for_a_reason() {
    let (mut job, _) = AlignJob::new();
    match job.advance(AlignEvent::OpenFailed("x".to_string())) {
        AlignAction::Failed(text) => assert_eq!(text, "failed to open IQ WAV input: x"),
        other => panic!("unexpected {other:?}"),
    }
    let (mut job, _) = AlignJob::new();
    job.advance(AlignEvent::Opened { sample_rate: 100, linear: false });
    assert!(matches!(
        job.advance(AlignEvent::Prefix { len: 3, scorer_len: 9 }),
        AlignAction::Estimate
    ));
    assert!(matches!(
        job.advance(AlignEvent::Estimated),
        AlignAction::Ready { from: 0, frames: 0 }
    ));
    let (mut job, _) = AlignJob::new();
    job.advance(AlignEvent::Opened { sample_rate: 100, linear: true });
    job.advance(AlignEvent::Prefix { len: 3, scorer_len: 9 });
    match job.advance(AlignEvent::Scored(None)) {
        AlignAction::Failed(text) => assert_eq!(text, "downlink is not a linear-IQ modem"),
        other => panic!("unexpected {other:?}"),
    }
}

#[test]
fn scorer_announces_once() {
    assert!(matches!(
        announce_progress(false, 1, 30),
        RxEvent::AlignmentStarted { total: 30 }
    ));
    assert!(matches!(
        announce_progress(true, 2, 30),
        RxEvent::AlignmentProgress { current: 2 }
    ));
}
