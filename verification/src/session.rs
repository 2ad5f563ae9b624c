//! The decisions of a decoding session: which input is opened for a downlink, what
//! the worker does next at every turn of its loop, how a recording is aligned before
//! it is decoded, and when the spectrum and the pacing wait.
//!
//! Opening, reading, demodulating and sleeping happen outside; a worker performs the
//! action that is asked for and hands back what came of it.
use vstd::prelude::*;
use vstd::string::StringExecFns;
use crate::receiver::{InputMode, RxEvent};
use crate::text::{decimal, decimal_string};

verus! {

/// Samples that are read at a time.
pub const READ_CHUNK: usize = 4096;

/// Samples of a chunk that the spectrum shows.
pub const SPECTRUM_FFT_LEN: usize = 4096;

/// Nanoseconds between two rows of the spectrum.
pub const SPECTRUM_INTERVAL_NS: u64 = 33_000_000;

/// Nanoseconds that the pacing sleeps at most.
pub const PACE_SLEEP_NS: u64 = 20_000_000;

/// What a downlink is demodulated from.
#[derive(Debug, Clone, Copy, PartialEq, Eq, Structural)]
pub enum InputKind {
    /// Real audio.
    Audio,
    /// Complex samples.
    Iq,
    /// Audio behind an FM demodulator.
    FmAudio,
}

/// How a recording or a sound card is to be read.
#[derive(Debug, Clone, Copy, PartialEq, Eq, Structural)]
pub enum AudioMode {
    /// As the recording suggests.
    Auto,
    /// Complex samples in two channels.
    Iq,
    /// Audio behind an FM demodulator.
    Fm,
    /// Audio behind a single-sideband receiver.
    Ssb,
}

/// Pacing of recordings.
#[derive(Debug, Clone, Copy, PartialEq, Eq, Structural)]
pub enum DecodePace {
    /// As fast as the recording was made.
    Realtime,
    /// As fast as it can be read.
    Fast,
}

/// The input that is opened for a downlink.
#[derive(Debug, Clone, Copy, PartialEq, Eq, Structural)]
pub enum InputPlan {
    /// Audio for the SSTV analyzer.
    Sstv,
    /// Complex samples of a sound card.
    SoundcardIq,
    /// Audio of a sound card.
    SoundcardAudio {
        /// Behind an FM demodulator.
        fm: bool,
    },
    /// Audio of a recording.
    FileAudio {
        /// Behind an FM demodulator.
        fm: bool,
    },
    /// A recording whose kind has to be found out first.
    FileDetect,
    /// Complex samples of a recording.
    FileIq,
    /// Audio of a recording in place of complex samples, behind an FM demodulator.
    FileFm,
    /// Audio of a recording in place of complex samples, from one sideband.
    FileSsb,
}

/// The plan for a recording of complex samples that is read in some mode.
pub open spec fn file_plan(mode: AudioMode) -> InputPlan {
    match mode {
        AudioMode::Auto => InputPlan::FileIq,
        AudioMode::Iq => InputPlan::FileIq,
        AudioMode::Fm => InputPlan::FileFm,
        AudioMode::Ssb => InputPlan::FileSsb,
    }
}

/// The kind that a sound card delivers: what the user says, else what the downlink
/// needs.
pub open spec fn soundcard_kind(kind: Option<InputKind>, mode: AudioMode) -> Option<InputKind> {
    match mode {
        AudioMode::Fm => Some(InputKind::FmAudio),
        AudioMode::Iq => Some(InputKind::Iq),
        _ => kind,
    }
}

/// The plan for a downlink, or why there is none.
pub open spec fn input_plan(
    sstv: bool,
    input: InputMode,
    has_path: bool,
    kind: Option<InputKind>,
    mode: AudioMode,
) -> Result<InputPlan, Seq<char>> {
    if sstv {
        if input == InputMode::WavFile && !has_path {
            Err("missing audio input path"@)
        } else {
            Ok(InputPlan::Sstv)
        }
    } else {
        match input {
            InputMode::Soundcard => match soundcard_kind(kind, mode) {
                Some(InputKind::Iq) => Ok(InputPlan::SoundcardIq),
                Some(k) => Ok(InputPlan::SoundcardAudio { fm: k == InputKind::FmAudio }),
                None => Err("selected downlink is not supported by soundcard input"@),
            },
            InputMode::WavFile => if !has_path {
                Err("missing WAV input path"@)
            } else {
                match kind {
                    Some(InputKind::Iq) => if mode == AudioMode::Auto {
                        Ok(InputPlan::FileDetect)
                    } else {
                        Ok(file_plan(mode))
                    },
                    Some(k) => Ok(InputPlan::FileAudio { fm: k == InputKind::FmAudio }),
                    None => Err("selected downlink is not supported by this input mode"@),
                }
            },
        }
    }
}

/// A result with its error by contents.
pub open spec fn by_contents<T>(res: Result<T, String>) -> Result<T, Seq<char>> {
    match res {
        Ok(v) => Ok(v),
        Err(e) => Err(e@),
    }
}

/// The plan for a recording whose kind was found out.
pub fn detected_plan(mode: AudioMode) -> (plan: InputPlan)
    ensures
        plan == file_plan(mode),
{
    match mode {
        AudioMode::Auto => InputPlan::FileIq,
        AudioMode::Iq => InputPlan::FileIq,
        AudioMode::Fm => InputPlan::FileFm,
        AudioMode::Ssb => InputPlan::FileSsb,
    }
}

/// Which input is opened for a downlink. On a sound card an explicit choice of FM or
/// IQ overrides what the downlink would need, so that demodulated audio can be fed to
/// a downlink that is defined on complex samples.
pub fn plan_input(
    sstv: bool,
    input: InputMode,
    has_path: bool,
    kind: Option<InputKind>,
    mode: AudioMode,
) -> (res: Result<InputPlan, String>)
    ensures
        by_contents(res) == input_plan(sstv, input, has_path, kind, mode),
{
    if sstv {
        if input == InputMode::WavFile && !has_path {
            return Err("missing audio input path".to_string());
        }
        return Ok(InputPlan::Sstv);
    }
    match input {
        InputMode::Soundcard => {
            let effective: Option<InputKind> = match mode {
                AudioMode::Fm => Some(InputKind::FmAudio),
                AudioMode::Iq => Some(InputKind::Iq),
                _ => kind,
            };
            match effective {
                Some(InputKind::Iq) => Ok(InputPlan::SoundcardIq),
                Some(k) => Ok(InputPlan::SoundcardAudio { fm: k == InputKind::FmAudio }),
                None => Err("selected downlink is not supported by soundcard input".to_string()),
            }
        },
        InputMode::WavFile => {
            if !has_path {
                return Err("missing WAV input path".to_string());
            }
            match kind {
                Some(InputKind::Iq) => {
                    if mode == AudioMode::Auto {
                        Ok(InputPlan::FileDetect)
                    } else {
                        Ok(detected_plan(mode))
                    }
                },
                Some(k) => Ok(InputPlan::FileAudio { fm: k == InputKind::FmAudio }),
                None => Err("selected downlink is not supported by this input mode".to_string()),
            }
        },
    }
}

/// A call that opens or prepares part of an input.
#[derive(Debug, Clone, Copy, PartialEq, Eq, Structural)]
pub enum OpenStep {
    /// Opening a sound card for complex samples.
    SoundcardIq,
    /// Opening a sound card for audio.
    Soundcard,
    /// Finding out the kind of a recording.
    Detect,
    /// Opening a recording of complex samples.
    WavIq,
    /// Making the SSTV analyzer.
    Sstv,
}

/// What stands before the reason when a call fails.
pub open spec fn failure_head(step: OpenStep) -> Seq<char> {
    match step {
        OpenStep::SoundcardIq => "soundcard IQ open failed: "@,
        OpenStep::Soundcard => "soundcard open failed: "@,
        OpenStep::Detect => "audio mode auto-detect failed: "@,
        OpenStep::WavIq => "failed to open IQ WAV input: "@,
        OpenStep::Sstv => "SSTV analyzer init failed: "@,
    }
}

/// The message of a call that failed.
pub fn open_failure(step: OpenStep, reason: &str) -> (text: String)
    ensures
        text@ == failure_head(step) + reason@,
{
    match step {
        OpenStep::SoundcardIq => "soundcard IQ open failed: ".to_string().concat(reason),
        OpenStep::Soundcard => "soundcard open failed: ".to_string().concat(reason),
        OpenStep::Detect => "audio mode auto-detect failed: ".to_string().concat(reason),
        OpenStep::WavIq => "failed to open IQ WAV input: ".to_string().concat(reason),
        OpenStep::Sstv => "SSTV analyzer init failed: ".to_string().concat(reason),
    }
}

/// Where the audio carrier of a single-sideband recording comes from.
#[derive(Debug, Clone, Copy, PartialEq, Eq, Structural)]
pub enum CarrierSource {
    /// The user gave it.
    User,
    /// It is estimated from this many samples at the start.
    Estimate {
        /// Samples to read: one second.
        prefix_len: usize,
    },
}

/// The source of the carrier, or why there is none. The band to search ends 200 Hz
/// below half the sample rate and begins at 200 Hz.
pub open spec fn carrier_source(
    soft_ao40: bool,
    user_carrier: bool,
    sample_rate: u32,
) -> Result<CarrierSource, Seq<char>> {
    if soft_ao40 {
        Err("SSB mono audio is not supported for AO-40 soft FEC downlinks"@)
    } else if user_carrier {
        Ok(CarrierSource::User)
    } else if sample_rate <= 800 {
        Err(
            "SSB audio carrier auto-estimate: sample rate "@ + decimal(sample_rate as nat)
                + " Hz is too low"@,
        )
    } else {
        Ok(CarrierSource::Estimate { prefix_len: sample_rate as usize })
    }
}

/// Where the audio carrier of a single-sideband recording comes from: from the user,
/// where `user_carrier` tells that a positive number was given, else from the first
/// second of the recording. Soft AO-40 decoding does not take such recordings.
pub fn plan_carrier(soft_ao40: bool, user_carrier: bool, sample_rate: u32) -> (res: Result<
    CarrierSource,
    String,
>)
    ensures
        by_contents(res) == carrier_source(soft_ao40, user_carrier, sample_rate),
{
    if soft_ao40 {
        return Err("SSB mono audio is not supported for AO-40 soft FEC downlinks".to_string());
    }
    if user_carrier {
        return Ok(CarrierSource::User);
    }
    if sample_rate <= 800 {
        return Err(
            "SSB audio carrier auto-estimate: sample rate ".to_string().concat(
                decimal_string(sample_rate as u64).as_str(),
            ).concat(" Hz is too low"),
        );
    }
    Ok(CarrierSource::Estimate { prefix_len: sample_rate as usize })
}

/// How the samples of an input are decoded.
#[derive(Debug, Clone, Copy, PartialEq, Eq, Structural)]
pub enum InputPath {
    /// Audio through a bit pipeline.
    Audio,
    /// Complex samples through a bit pipeline.
    Iq,
    /// Complex samples through soft AO-40 decoding.
    SoftAo40,
    /// Audio through the SSTV analyzer.
    Sstv,
}

/// The path of a plan.
pub open spec fn path_of(plan: InputPlan, soft_ao40: bool) -> InputPath {
    match plan {
        InputPlan::Sstv => InputPath::Sstv,
        InputPlan::SoundcardAudio { .. } => InputPath::Audio,
        InputPlan::FileAudio { .. } => InputPath::Audio,
        InputPlan::FileFm => InputPath::Audio,
        InputPlan::FileSsb => InputPath::Iq,
        _ => if soft_ao40 {
            InputPath::SoftAo40
        } else {
            InputPath::Iq
        },
    }
}

/// How the samples of a plan are decoded; `soft_ao40` tells whether the downlink
/// carries AO-40 blocks.
pub fn plan_path(plan: InputPlan, soft_ao40: bool) -> (path: InputPath)
    ensures
        path == path_of(plan, soft_ao40),
{
    match plan {
        InputPlan::Sstv => InputPath::Sstv,
        InputPlan::SoundcardAudio { fm: _ } => InputPath::Audio,
        InputPlan::FileAudio { fm: _ } => InputPath::Audio,
        InputPlan::FileFm => InputPath::Audio,
        InputPlan::FileSsb => InputPath::Iq,
        _ => {
            if soft_ao40 {
                InputPath::SoftAo40
            } else {
                InputPath::Iq
            }
        },
    }
}

/// What a read gave.
#[derive(Debug)]
pub enum ReadOutcome {
    /// This many samples.
    Samples(usize),
    /// The input has ended.
    EndOfStream,
    /// The read failed, with the reason.
    Failed(String),
}

/// Where the worker stands.
#[derive(Debug, Clone, Copy, PartialEq, Eq, Structural)]
pub enum LoopPhase {
    /// The input is being opened.
    Building,
    /// The stop switch is looked at.
    Polling,
    /// Samples are being read.
    Reading,
    /// Samples are being decoded.
    Working {
        /// Number of samples.
        count: usize,
    },
    /// The clock is being waited for.
    Pacing {
        /// Samples decoded so far.
        processed: u64,
    },
    /// The analyzer is being drained.
    Finishing,
    /// The worker has ended.
    Ended,
}

/// What came of an action.
#[derive(Debug)]
pub enum LoopEvent {
    /// The input was opened.
    Built {
        /// How its samples are decoded.
        path: InputPath,
        /// Samples read ahead and not yet decoded.
        pending: usize,
        /// Samples in all, where that is known.
        total: Option<u64>,
    },
    /// The input could not be opened, with the reason.
    BuildFailed(String),
    /// Whether the stop switch was thrown.
    StopSwitch(bool),
    /// Samples were asked for.
    Read(ReadOutcome),
    /// Samples were decoded.
    Worked {
        /// Samples that the pipeline has taken so far.
        processed: u64,
    },
    /// The clock was waited for; `false` where the stop switch was thrown meanwhile.
    Paced(bool),
    /// The analyzer was drained.
    Finished,
}

/// What the worker reports.
#[derive(Debug)]
pub enum LoopReport {
    /// The name and the rate of the input.
    Source,
    /// The counters of the pipeline.
    Stats,
    /// Progress through the input.
    Progress {
        /// Samples decoded so far.
        processed: u64,
        /// Samples in all, where that is known.
        total: Option<u64>,
    },
    /// Something was lost, with the reason.
    Dropped(String),
    /// The worker ended.
    Stopped,
}

/// The contents of a report.
pub enum ReportModel {
    Source,
    Stats,
    Progress { processed: u64, total: Option<u64> },
    Dropped(Seq<char>),
    Stopped,
}

/// The contents of a report.
pub open spec fn report_view(report: LoopReport) -> ReportModel {
    match report {
        LoopReport::Source => ReportModel::Source,
        LoopReport::Stats => ReportModel::Stats,
        LoopReport::Progress { processed, total } => ReportModel::Progress { processed, total },
        LoopReport::Dropped(text) => ReportModel::Dropped(text@),
        LoopReport::Stopped => ReportModel::Stopped,
    }
}

/// The contents of some reports.
pub open spec fn reports_view(reports: Seq<LoopReport>) -> Seq<ReportModel> {
    Seq::new(reports.len(), |i: int| report_view(reports[i]))
}

/// The loop of a decoding worker.
#[derive(Debug, Clone, Copy)]
pub struct DecodeLoop {
    /// How samples are decoded.
    pub path: InputPath,
    /// Recordings are paced by the clock.
    pub realtime: bool,
    /// Samples in all, where that is known.
    pub total: Option<u64>,
    /// Samples read ahead and not yet decoded.
    pub pending: usize,
    /// Samples that the SSTV analyzer has taken.
    pub analyzed: u64,
    /// Where the worker stands.
    pub phase: LoopPhase,
}

/// What the worker is to do.
#[derive(Debug, Clone, Copy, PartialEq, Eq, Structural)]
pub enum LoopAction {
    /// Open the input.
    Build,
    /// Look at the stop switch.
    CheckStop,
    /// Read up to a chunk of samples.
    Read,
    /// Show the first samples in the spectrum, if a row is due, and decode all.
    Work {
        /// Number of samples.
        count: usize,
        /// Number of samples for the spectrum.
        spectrum: usize,
    },
    /// Wait until the clock has caught up.
    Pace {
        /// Samples decoded so far.
        processed: u64,
    },
    /// Drain the analyzer.
    Finish,
    /// Nothing more.
    End,
}

/// The smaller of two numbers.
pub open spec fn lesser(a: int, b: int) -> int {
    if a < b {
        a
    } else {
        b
    }
}

/// What stands before the reason when a read fails.
pub open spec fn read_failure_head(path: InputPath) -> Seq<char> {
    match path {
        InputPath::Audio => "audio read failed: "@,
        InputPath::Sstv => "audio read failed: "@,
        _ => "IQ WAV read failed: "@,
    }
}

/// The largest number that a sum of samples reaches.
pub open spec fn capped_sum(a: u64, b: usize) -> u64 {
    if a + b <= u64::MAX {
        (a + b) as u64
    } else {
        u64::MAX
    }
}

/// The loop and its reports after an event. An event that does not answer the
/// pending action changes nothing.
pub open spec fn loop_after(l: DecodeLoop, event: LoopEvent) -> (DecodeLoop, Seq<ReportModel>) {
    let ended = DecodeLoop { phase: LoopPhase::Ended, ..l };
    let polling = DecodeLoop { phase: LoopPhase::Polling, ..l };
    match (l.phase, event) {
        (LoopPhase::Building, LoopEvent::Built { path, pending, total }) => (
            DecodeLoop { path, pending, total, ..polling },
            seq![ReportModel::Source, ReportModel::Progress { processed: 0, total }],
        ),
        (LoopPhase::Building, LoopEvent::BuildFailed(reason)) => (
            ended,
            seq![ReportModel::Dropped(reason@), ReportModel::Stopped],
        ),
        (LoopPhase::Polling, LoopEvent::StopSwitch(thrown)) => if thrown {
            (ended, seq![ReportModel::Stopped])
        } else if l.pending > 0 {
            let count = lesser(l.pending as int, READ_CHUNK as int);
            (
                DecodeLoop {
                    pending: (l.pending - count) as usize,
                    phase: LoopPhase::Working { count: count as usize },
                    ..l
                },
                seq![],
            )
        } else {
            (DecodeLoop { phase: LoopPhase::Reading, ..l }, seq![])
        },
        (LoopPhase::Reading, LoopEvent::Read(outcome)) => match outcome {
            ReadOutcome::Samples(n) => if n == 0 {
                (polling, seq![])
            } else {
                (DecodeLoop { phase: LoopPhase::Working { count: n }, ..l }, seq![])
            },
            ReadOutcome::EndOfStream => if l.path == InputPath::Sstv {
                (DecodeLoop { phase: LoopPhase::Finishing, ..l }, seq![])
            } else {
                (ended, seq![ReportModel::Stopped])
            },
            ReadOutcome::Failed(reason) => (
                ended,
                seq![
                    ReportModel::Dropped(read_failure_head(l.path) + reason@),
                    ReportModel::Stopped,
                ],
            ),
        },
        (LoopPhase::Working { count }, LoopEvent::Worked { processed }) => {
            let taken = if l.path == InputPath::Sstv {
                capped_sum(l.analyzed, count)
            } else {
                processed
            };
            let progress = ReportModel::Progress { processed: taken, total: l.total };
            (
                DecodeLoop {
                    analyzed: if l.path == InputPath::Sstv {
                        taken
                    } else {
                        l.analyzed
                    },
                    phase: if l.realtime {
                        LoopPhase::Pacing { processed: taken }
                    } else {
                        LoopPhase::Polling
                    },
                    ..l
                },
                if l.path == InputPath::Audio || l.path == InputPath::Iq {
                    seq![ReportModel::Stats, progress]
                } else {
                    seq![progress]
                },
            )
        },
        (LoopPhase::Pacing { processed: _ }, LoopEvent::Paced(on_time)) => if on_time {
            (polling, seq![])
        } else {
            (ended, seq![ReportModel::Stopped])
        },
        (LoopPhase::Finishing, LoopEvent::Finished) => (ended, seq![ReportModel::Stopped]),
        _ => (l, seq![]),
    }
}

/// What the worker is to do in a phase.
pub open spec fn action_in(phase: LoopPhase) -> LoopAction {
    match phase {
        LoopPhase::Building => LoopAction::Build,
        LoopPhase::Polling => LoopAction::CheckStop,
        LoopPhase::Reading => LoopAction::Read,
        LoopPhase::Working { count } => LoopAction::Work {
            count,
            spectrum: lesser(count as int, SPECTRUM_FFT_LEN as int) as usize,
        },
        LoopPhase::Pacing { processed } => LoopAction::Pace { processed },
        LoopPhase::Finishing => LoopAction::Finish,
        LoopPhase::Ended => LoopAction::End,
    }
}

impl DecodeLoop {
    /// A worker that is about to open its input. Only recordings are paced.
    pub fn new(input: InputMode, pace: DecodePace) -> (l: Self)
        ensures
            l.phase == LoopPhase::Building,
            l.pending == 0,
            l.analyzed == 0,
            l.total is None,
            l.realtime == (input == InputMode::WavFile && pace == DecodePace::Realtime),
    {
        DecodeLoop {
            path: InputPath::Audio,
            realtime: input == InputMode::WavFile && pace == DecodePace::Realtime,
            total: None,
            pending: 0,
            analyzed: 0,
            phase: LoopPhase::Building,
        }
    }

    /// What the worker is to do.
    pub fn action(&self) -> (action: LoopAction)
        ensures
            action == action_in(self.phase),
    {
        match self.phase {
            LoopPhase::Building => LoopAction::Build,
            LoopPhase::Polling => LoopAction::CheckStop,
            LoopPhase::Reading => LoopAction::Read,
            LoopPhase::Working { count } => LoopAction::Work {
                count,
                spectrum: if count < SPECTRUM_FFT_LEN { count } else { SPECTRUM_FFT_LEN },
            },
            LoopPhase::Pacing { processed } => LoopAction::Pace { processed },
            LoopPhase::Finishing => LoopAction::Finish,
            LoopPhase::Ended => LoopAction::End,
        }
    }

    fn end(&mut self, reason: Option<String>) -> (reports: Vec<LoopReport>)
        ensures
            *final(self) == (DecodeLoop { phase: LoopPhase::Ended, ..*old(self) }),
            reports_view(reports@) == (match reason {
                Some(text) => seq![ReportModel::Dropped(text@), ReportModel::Stopped],
                None => seq![ReportModel::Stopped],
            }),
    {
        self.phase = LoopPhase::Ended;
        let mut reports: Vec<LoopReport> = Vec::new();
        let ghost said = reason;
        if let Some(text) = reason {
            reports.push(LoopReport::Dropped(text));
        }
        reports.push(LoopReport::Stopped);
        assert(reports_view(reports@) =~= (match said {
            Some(text) => seq![ReportModel::Dropped(text@), ReportModel::Stopped],
            None => seq![ReportModel::Stopped],
        }));
        reports
    }

    fn read_done(&mut self, outcome: ReadOutcome) -> (reports: Vec<LoopReport>)
        requires
            old(self).phase == LoopPhase::Reading,
        ensures
            (*final(self), reports_view(reports@)) == loop_after(
                *old(self),
                LoopEvent::Read(outcome),
            ),
    {
        match outcome {
            ReadOutcome::Samples(n) => {
                self.phase = if n == 0 {
                    LoopPhase::Polling
                } else {
                    LoopPhase::Working { count: n }
                };
                let reports: Vec<LoopReport> = Vec::new();
                assert(reports_view(reports@) =~= seq![]);
                reports
            },
            ReadOutcome::EndOfStream => {
                if self.path == InputPath::Sstv {
                    self.phase = LoopPhase::Finishing;
                    let reports: Vec<LoopReport> = Vec::new();
                    assert(reports_view(reports@) =~= seq![]);
                    reports
                } else {
                    self.end(None)
                }
            },
            ReadOutcome::Failed(reason) => {
                let head: &str = match self.path {
                    InputPath::Audio => "audio read failed: ",
                    InputPath::Sstv => "audio read failed: ",
                    _ => "IQ WAV read failed: ",
                };
                self.end(Some(head.to_string().concat(reason.as_str())))
            },
        }
    }

    fn work_done(&mut self, count: usize, processed: u64) -> (reports: Vec<LoopReport>)
        requires
            old(self).phase == (LoopPhase::Working { count }),
        ensures
            (*final(self), reports_view(reports@)) == loop_after(
                *old(self),
                LoopEvent::Worked { processed },
            ),
    {
        let mut reports: Vec<LoopReport> = Vec::new();
        let taken: u64 = if self.path == InputPath::Sstv {
            let sum: u64 = if count as u64 <= u64::MAX - self.analyzed {
                self.analyzed + count as u64
            } else {
                u64::MAX
            };
            self.analyzed = sum;
            sum
        } else {
            processed
        };
        if self.path == InputPath::Audio || self.path == InputPath::Iq {
            reports.push(LoopReport::Stats);
        }
        reports.push(LoopReport::Progress { processed: taken, total: self.total });
        self.phase = if self.realtime {
            LoopPhase::Pacing { processed: taken }
        } else {
            LoopPhase::Polling
        };
        assert(reports_view(reports@) =~= loop_after(
            *old(self),
            LoopEvent::Worked { processed },
        ).1);
        reports
    }

    /// Take what came of the action, and say what is to be reported.
    pub fn advance(&mut self, event: LoopEvent) -> (reports: Vec<LoopReport>)
        ensures
            (*final(self), reports_view(reports@)) == loop_after(*old(self), event),
    {
        let mut reports: Vec<LoopReport> = Vec::new();
        assert(reports_view(reports@) =~= seq![]);
        match (self.phase, event) {
            (LoopPhase::Building, LoopEvent::Built { path, pending, total }) => {
                self.path = path;
                self.pending = pending;
                self.total = total;
                self.phase = LoopPhase::Polling;
                reports.push(LoopReport::Source);
                reports.push(LoopReport::Progress { processed: 0, total });
                assert(reports_view(reports@) =~= seq![
                    ReportModel::Source,
                    ReportModel::Progress { processed: 0, total },
                ]);
                reports
            },
            (LoopPhase::Building, LoopEvent::BuildFailed(reason)) => self.end(Some(reason)),
            (LoopPhase::Polling, LoopEvent::StopSwitch(thrown)) => {
                if thrown {
                    return self.end(None);
                }
                if self.pending > 0 {
                    let count: usize = if self.pending < READ_CHUNK {
                        self.pending
                    } else {
                        READ_CHUNK
                    };
                    self.pending = self.pending - count;
                    self.phase = LoopPhase::Working { count };
                } else {
                    self.phase = LoopPhase::Reading;
                }
                reports
            },
            (LoopPhase::Reading, LoopEvent::Read(outcome)) => self.read_done(outcome),
            (LoopPhase::Working { count }, LoopEvent::Worked { processed }) => self.work_done(
                count,
                processed,
            ),
            (LoopPhase::Pacing { processed: _ }, LoopEvent::Paced(on_time)) => {
                if on_time {
                    self.phase = LoopPhase::Polling;
                    reports
                } else {
                    self.end(None)
                }
            },
            (LoopPhase::Finishing, LoopEvent::Finished) => self.end(None),
            _ => reports,
        }
    }
}

/// The loop after a sequence of events.
pub open spec fn loop_run(l: DecodeLoop, events: Seq<LoopEvent>) -> DecodeLoop
    decreases events.len(),
{
    if events.len() == 0 {
        l
    } else {
        loop_after(loop_run(l, events.drop_last()), events.last()).0
    }
}

/// The reports of a sequence of events.
pub open spec fn reports_of(l: DecodeLoop, events: Seq<LoopEvent>) -> Seq<ReportModel>
    decreases events.len(),
{
    if events.len() == 0 {
        seq![]
    } else {
        reports_of(l, events.drop_last()) + loop_after(
            loop_run(l, events.drop_last()),
            events.last(),
        ).1
    }
}

/// Samples that were read ahead are decoded before any are read: the worker reads
/// only when none are pending.
pub proof fn law_pending_samples_come_first(l: DecodeLoop, events: Seq<LoopEvent>)
    requires
        l.phase == LoopPhase::Building,
        l.pending == 0,
    ensures
        loop_run(l, events).phase == LoopPhase::Reading ==> loop_run(l, events).pending == 0,
    decreases events.len(),
{
    if events.len() > 0 {
        law_pending_samples_come_first(l, events.drop_last());
    }
}

/// The stop switch ends the worker at its next turn, whatever is pending.
pub proof fn law_stop_switch_ends(l: DecodeLoop)
    requires
        l.phase == LoopPhase::Polling,
    ensures
        loop_after(l, LoopEvent::StopSwitch(true)).0.phase == LoopPhase::Ended,
        loop_after(l, LoopEvent::StopSwitch(true)).1 == seq![ReportModel::Stopped],
{
}

/// The worker says that it stopped exactly when it has ended, once, and last.
pub proof fn law_stopped_is_said_once(l: DecodeLoop, events: Seq<LoopEvent>)
    requires
        l.phase != LoopPhase::Ended,
    ensures
        ({
            let said = reports_of(l, events);
            if loop_run(l, events).phase == LoopPhase::Ended {
                &&& said.len() > 0
                &&& said.last() == ReportModel::Stopped
                &&& forall|i: int| 0 <= i < said.len() - 1 ==> said[i] != ReportModel::Stopped
            } else {
                forall|i: int| 0 <= i < said.len() ==> said[i] != ReportModel::Stopped
            }
        }),
    decreases events.len(),
{
    if events.len() > 0 {
        law_stopped_is_said_once(l, events.drop_last());
        let before = loop_run(l, events.drop_last());
        let more = loop_after(before, events.last()).1;
        let said = reports_of(l, events.drop_last());
        assert(reports_of(l, events) == said + more);
        if before.phase == LoopPhase::Ended {
            assert(more =~= seq![]);
            assert(said + more =~= said);
        }
    }
}

/// Every pending sample is decoded: a turn of the loop that is not stopped decodes a
/// chunk of what is pending and leaves the rest pending.
pub proof fn law_pending_is_worked_off(l: DecodeLoop)
    requires
        l.phase == LoopPhase::Polling,
        l.pending > 0,
    ensures
        ({
            let next = loop_after(l, LoopEvent::StopSwitch(false)).0;
            next.phase matches LoopPhase::Working { count } && 0 < count <= READ_CHUNK
                && next.pending + count == l.pending
        }),
{
}

/// What the pacing does next.
#[derive(Debug, Clone, Copy, PartialEq, Eq, Structural)]
pub enum PaceStep {
    /// The clock has caught up.
    Reached,
    /// Sleep this many nanoseconds, unless the stop switch was thrown.
    Sleep(u64),
}

/// What the pacing does when `elapsed` of `target` nanoseconds have passed: it sleeps
/// for what is left, but never longer than a fiftieth of a second.
pub fn pace_step(elapsed: u64, target: u64) -> (step: PaceStep)
    ensures
        step == (if elapsed >= target {
            PaceStep::Reached
        } else {
            PaceStep::Sleep(lesser(target - elapsed, PACE_SLEEP_NS as int) as u64)
        }),
{
    if elapsed >= target {
        PaceStep::Reached
    } else if target - elapsed < PACE_SLEEP_NS {
        PaceStep::Sleep(target - elapsed)
    } else {
        PaceStep::Sleep(PACE_SLEEP_NS)
    }
}

/// Pacing never sleeps past its target, and every sleep is longer than nothing.
pub proof fn law_pacing_never_oversleeps(elapsed: u64, target: u64)
    requires
        elapsed < target,
    ensures
        0 < lesser(target - elapsed, PACE_SLEEP_NS as int) <= PACE_SLEEP_NS,
        elapsed + lesser(target - elapsed, PACE_SLEEP_NS as int) <= target,
{
}

/// Whether a row of the spectrum is due, some nanoseconds after the last one.
pub fn spectrum_due(since_last: Option<u64>) -> (due: bool)
    ensures
        due == (since_last matches Some(ns) ==> ns >= SPECTRUM_INTERVAL_NS),
{
    match since_last {
        Some(ns) => ns >= SPECTRUM_INTERVAL_NS,
        None => true,
    }
}

/// How sending a row of the spectrum went.
#[derive(Debug, Clone, Copy, PartialEq, Eq, Structural)]
pub enum SendOutcome {
    /// The row is in the queue.
    Sent,
    /// The queue was full; the row is dropped.
    Full,
    /// Nobody listens any more.
    Disconnected,
}

/// Whether the clock of the spectrum starts anew. A row that met a full queue does
/// not count, so that the next chunk may try again.
pub fn spectrum_counts(outcome: SendOutcome) -> (counts: bool)
    ensures
        counts == (outcome != SendOutcome::Full),
{
    match outcome {
        SendOutcome::Full => false,
        _ => true,
    }
}

/// Samples that are read ahead of decoding: eight seconds.
pub fn prefix_len(sample_rate: u32) -> (len: usize)
    requires
        8 * sample_rate <= usize::MAX,
    ensures
        len == 8 * sample_rate,
{
    sample_rate as usize * 8
}

/// Where the samples that are kept of a prefix begin: behind the skipped ones, or at
/// the end where there are no more.
pub fn kept_from(sample_skip: usize, prefix_len: usize) -> (from: usize)
    ensures
        from == lesser(sample_skip as int, prefix_len as int),
{
    if sample_skip < prefix_len {
        sample_skip
    } else {
        prefix_len
    }
}

/// What makes an alignment fit an input.
#[derive(Debug)]
pub struct AlignmentKey {
    /// The recording is the one that was aligned.
    pub same_path: bool,
    /// Samples per second.
    pub sample_rate: u32,
    /// Everything that defines the downlink.
    pub downlink_id: String,
}

/// How a recording of complex samples comes by its alignment.
#[derive(Debug, Clone, Copy, PartialEq, Eq, Structural)]
pub enum AlignmentUse {
    /// The known one is used as it is.
    Cached,
    /// The known one is used, and the samples that it was found on are read past.
    CachedPastPrefix,
    /// It has to be searched for.
    Search,
}

/// How an input uses a known alignment: where the recording, the rate and the downlink
/// are the same, it is taken; the prefix is read past unless it is empty and nothing
/// is skipped.
pub open spec fn alignment_use(
    cached: Option<(AlignmentKey, bool, usize)>,
    sample_rate: u32,
    downlink_id: Seq<char>,
) -> AlignmentUse {
    match cached {
        Some((key, prefix_empty, sample_skip)) => if key.same_path && key.sample_rate
            == sample_rate && key.downlink_id@ == downlink_id {
            if prefix_empty && sample_skip == 0 {
                AlignmentUse::Cached
            } else {
                AlignmentUse::CachedPastPrefix
            }
        } else {
            AlignmentUse::Search
        },
        None => AlignmentUse::Search,
    }
}

/// How an input uses a known alignment, given by its key, whether its prefix is empty,
/// and the samples that it skips.
pub fn use_alignment(
    cached: &Option<(AlignmentKey, bool, usize)>,
    sample_rate: u32,
    downlink_id: &String,
) -> (how: AlignmentUse)
    ensures
        how == alignment_use(*cached, sample_rate, downlink_id@),
{
    match cached {
        Some((key, prefix_empty, sample_skip)) => {
            if key.same_path && key.sample_rate == sample_rate && key.downlink_id == *downlink_id {
                if *prefix_empty && *sample_skip == 0 {
                    AlignmentUse::Cached
                } else {
                    AlignmentUse::CachedPastPrefix
                }
            } else {
                AlignmentUse::Search
            }
        },
        None => AlignmentUse::Search,
    }
}

/// What is said when an alignment was found: in the search, or earlier.
pub open spec fn found_words(
    cached: bool,
    tuning: Seq<char>,
    sample_skip: usize,
    frames: usize,
) -> Seq<char> {
    (if cached {
        "IQ alignment (cached): tuning="@
    } else {
        "IQ alignment: tuning="@
    }) + tuning + " Hz skip="@ + decimal(sample_skip as nat) + " prefix_frames="@ + decimal(
        frames as nat,
    )
}

/// What is said when an alignment was found; `tuning` has one decimal.
pub fn found_notice(cached: bool, tuning: &str, sample_skip: usize, frames: usize) -> (text: String)
    ensures
        text@ == found_words(cached, tuning@, sample_skip, frames),
{
    let head = if cached {
        "IQ alignment (cached): tuning=".to_string()
    } else {
        "IQ alignment: tuning=".to_string()
    };
    head.concat(tuning).concat(" Hz skip=").concat(
        decimal_string(sample_skip as u64).as_str(),
    ).concat(" prefix_frames=").concat(decimal_string(frames as u64).as_str())
}

/// What is said while a prefix is read and scored.
pub fn prefix_notices(sample_rate: u32, samples: usize) -> (texts: (String, String))
    ensures
        texts.0@ == "reading 8 s IQ prefix at "@ + decimal(sample_rate as nat) + " Hz\u{2026}"@,
        texts.1@ == "scoring IQ alignment over "@ + decimal(samples as nat)
            + " samples\u{2026}"@,
{
    let reading = "reading 8 s IQ prefix at ".to_string().concat(
        decimal_string(sample_rate as u64).as_str(),
    ).concat(" Hz\u{2026}");
    let scoring = "scoring IQ alignment over ".to_string().concat(
        decimal_string(samples as u64).as_str(),
    ).concat(" samples\u{2026}");
    (reading, scoring)
}

/// Whether a recording is aligned before it is decoded.
#[derive(Debug, Clone, Copy, PartialEq, Eq, Structural)]
pub enum AlignCheck {
    /// It is not.
    Skip,
    /// It is.
    Align,
    /// It is, if its kind turns out to be complex samples.
    AlignIfIq,
}

/// Whether a recording is aligned: one is chosen, a downlink on complex samples is
/// selected, and the recording is not read as audio.
pub open spec fn align_check(
    has_path: bool,
    input: InputMode,
    kind: Option<InputKind>,
    mode: AudioMode,
) -> AlignCheck {
    if has_path && input == InputMode::WavFile && kind == Some(InputKind::Iq) {
        match mode {
            AudioMode::Auto => AlignCheck::AlignIfIq,
            AudioMode::Iq => AlignCheck::Align,
            _ => AlignCheck::Skip,
        }
    } else {
        AlignCheck::Skip
    }
}

/// Whether a recording is aligned before it is decoded. `kind` is what the selected
/// downlink is demodulated from; nothing where none is selected.
pub fn plan_alignment(
    has_path: bool,
    input: InputMode,
    kind: Option<InputKind>,
    mode: AudioMode,
) -> (check: AlignCheck)
    ensures
        check == align_check(has_path, input, kind, mode),
{
    match kind {
        Some(InputKind::Iq) => {
            if has_path && input == InputMode::WavFile {
                match mode {
                    AudioMode::Auto => AlignCheck::AlignIfIq,
                    AudioMode::Iq => AlignCheck::Align,
                    _ => AlignCheck::Skip,
                }
            } else {
                AlignCheck::Skip
            }
        },
        _ => AlignCheck::Skip,
    }
}

/// Where the alignment of a recording stands.
#[derive(Debug, Clone, Copy, PartialEq, Eq, Structural)]
pub enum AlignPhase {
    /// The recording is being opened.
    Opening,
    /// Its first seconds are being read.
    Prefix,
    /// The carrier is being estimated, where the modem asks for it.
    Estimating,
    /// Candidates are being tried on the first samples.
    Scoring {
        /// Number of samples.
        len: usize,
    },
    /// Candidates are being tried on all samples, as too few gave no frame.
    Rescoring,
    /// The alignment has ended.
    Done,
}

/// What came of an action of the alignment.
#[derive(Debug)]
pub enum AlignEvent {
    /// The recording was opened.
    Opened {
        /// Samples per second.
        sample_rate: u32,
        /// The modem has a grid of candidates.
        linear: bool,
    },
    /// The recording could not be opened, with the reason.
    OpenFailed(String),
    /// The first seconds were read.
    Prefix {
        /// Number of samples.
        len: usize,
        /// Samples that are enough to try candidates on.
        scorer_len: usize,
    },
    /// The first seconds could not be read, with the reason.
    PrefixFailed(String),
    /// The carrier was estimated, where the modem asked for it.
    Estimated,
    /// Candidates were tried: the samples that the best one skips and the frames that
    /// it gave, or nothing where the modem has none.
    Scored(Option<(usize, usize)>),
}

/// What the alignment is to do, or how it ended.
#[derive(Debug)]
pub enum AlignAction {
    /// Open the recording.
    Open,
    /// Read its first samples.
    ReadPrefix {
        /// Number of samples.
        len: usize,
    },
    /// Estimate the carrier, where the modem asks for it.
    Estimate,
    /// Try candidates on the first samples.
    Score {
        /// Number of samples.
        len: usize,
        /// It is the second try.
        again: bool,
    },
    /// The alignment was found.
    Ready {
        /// Where the kept samples begin.
        from: usize,
        /// Frames decoded from the prefix.
        frames: usize,
    },
    /// There is no alignment, with the reason.
    Failed(String),
    /// Nothing.
    Wait,
}

/// The contents of an action.
pub enum AlignModel {
    Open,
    ReadPrefix { len: usize },
    Estimate,
    Score { len: usize, again: bool },
    Ready { from: usize, frames: usize },
    Failed(Seq<char>),
    Wait,
}

/// The contents of an action.
pub open spec fn align_view(action: AlignAction) -> AlignModel {
    match action {
        AlignAction::Open => AlignModel::Open,
        AlignAction::ReadPrefix { len } => AlignModel::ReadPrefix { len },
        AlignAction::Estimate => AlignModel::Estimate,
        AlignAction::Score { len, again } => AlignModel::Score { len, again },
        AlignAction::Ready { from, frames } => AlignModel::Ready { from, frames },
        AlignAction::Failed(text) => AlignModel::Failed(text@),
        AlignAction::Wait => AlignModel::Wait,
    }
}

/// The alignment of a recording.
#[derive(Debug, Clone, Copy)]
pub struct AlignJob {
    /// The modem has a grid of candidates.
    pub linear: bool,
    /// Samples in the prefix.
    pub prefix: usize,
    /// Where the alignment stands.
    pub phase: AlignPhase,
}

/// The end of trying candidates.
pub open spec fn scored_end(best: Option<(usize, usize)>, prefix: usize) -> AlignModel {
    match best {
        Some((skip, frames)) => AlignModel::Ready {
            from: lesser(skip as int, prefix as int) as usize,
            frames,
        },
        None => AlignModel::Failed("downlink is not a linear-IQ modem"@),
    }
}

/// The job and its next action after an event. An event that does not answer the
/// pending action changes nothing.
pub open spec fn align_after(j: AlignJob, event: AlignEvent) -> (AlignJob, AlignModel) {
    let done = AlignJob { phase: AlignPhase::Done, ..j };
    match (j.phase, event) {
        (AlignPhase::Opening, AlignEvent::Opened { sample_rate, linear }) => (
            AlignJob { linear, phase: AlignPhase::Prefix, ..j },
            AlignModel::ReadPrefix { len: (8 * sample_rate) as usize },
        ),
        (AlignPhase::Opening, AlignEvent::OpenFailed(reason)) => (
            done,
            AlignModel::Failed(failure_head(OpenStep::WavIq) + reason@),
        ),
        (AlignPhase::Prefix, AlignEvent::PrefixFailed(reason)) => (
            done,
            AlignModel::Failed(reason@),
        ),
        (AlignPhase::Prefix, AlignEvent::Prefix { len, scorer_len }) => if j.linear {
            let first = lesser(scorer_len as int, len as int) as usize;
            (
                AlignJob { prefix: len, phase: AlignPhase::Scoring { len: first }, ..j },
                AlignModel::Score { len: first, again: false },
            )
        } else {
            (
                AlignJob { prefix: len, phase: AlignPhase::Estimating, ..j },
                AlignModel::Estimate,
            )
        },
        (AlignPhase::Estimating, AlignEvent::Estimated) => (
            done,
            AlignModel::Ready { from: 0, frames: 0 },
        ),
        (AlignPhase::Scoring { len }, AlignEvent::Scored(best)) => match best {
            Some((skip, 0)) if len < j.prefix => (
                AlignJob { phase: AlignPhase::Rescoring, ..j },
                AlignModel::Score { len: j.prefix, again: true },
            ),
            _ => (done, scored_end(best, j.prefix)),
        },
        (AlignPhase::Rescoring, AlignEvent::Scored(best)) => (done, scored_end(best, j.prefix)),
        _ => (j, AlignModel::Wait),
    }
}

impl AlignJob {
    /// A job that is about to open its recording.
    pub fn new() -> (res: (Self, AlignAction))
        ensures
            res.0.phase == AlignPhase::Opening,
            res.0.prefix == 0,
            align_view(res.1) == AlignModel::Open,
    {
        (AlignJob { linear: false, prefix: 0, phase: AlignPhase::Opening }, AlignAction::Open)
    }

    fn finish(&mut self, best: Option<(usize, usize)>) -> (action: AlignAction)
        ensures
            *final(self) == (AlignJob { phase: AlignPhase::Done, ..*old(self) }),
            align_view(action) == scored_end(best, old(self).prefix),
    {
        self.phase = AlignPhase::Done;
        match best {
            Some((skip, frames)) => AlignAction::Ready {
                from: kept_from(skip, self.prefix),
                frames,
            },
            None => AlignAction::Failed("downlink is not a linear-IQ modem".to_string()),
        }
    }

    /// Take what came of the action, and say what comes next.
    pub fn advance(&mut self, event: AlignEvent) -> (action: AlignAction)
        requires
            event matches AlignEvent::Opened { sample_rate, linear } ==> 8 * sample_rate
                <= usize::MAX,
        ensures
            (*final(self), align_view(action)) == align_after(*old(self), event),
    {
        match (self.phase, event) {
            (AlignPhase::Opening, AlignEvent::Opened { sample_rate, linear }) => {
                self.linear = linear;
                self.phase = AlignPhase::Prefix;
                AlignAction::ReadPrefix { len: prefix_len(sample_rate) }
            },
            (AlignPhase::Opening, AlignEvent::OpenFailed(reason)) => {
                self.phase = AlignPhase::Done;
                AlignAction::Failed(open_failure(OpenStep::WavIq, reason.as_str()))
            },
            (AlignPhase::Prefix, AlignEvent::PrefixFailed(reason)) => {
                self.phase = AlignPhase::Done;
                AlignAction::Failed(reason)
            },
            (AlignPhase::Prefix, AlignEvent::Prefix { len, scorer_len }) => {
                self.prefix = len;
                if self.linear {
                    let first: usize = if scorer_len < len { scorer_len } else { len };
                    self.phase = AlignPhase::Scoring { len: first };
                    AlignAction::Score { len: first, again: false }
                } else {
                    self.phase = AlignPhase::Estimating;
                    AlignAction::Estimate
                }
            },
            (AlignPhase::Estimating, AlignEvent::Estimated) => {
                self.phase = AlignPhase::Done;
                AlignAction::Ready { from: 0, frames: 0 }
            },
            (AlignPhase::Scoring { len }, AlignEvent::Scored(best)) => {
                let nothing: bool = match best {
                    Some((_, frames)) => frames == 0,
                    None => false,
                };
                if nothing && len < self.prefix {
                    self.phase = AlignPhase::Rescoring;
                    AlignAction::Score { len: self.prefix, again: true }
                } else {
                    self.finish(best)
                }
            },
            (AlignPhase::Rescoring, AlignEvent::Scored(best)) => self.finish(best),
            _ => AlignAction::Wait,
        }
    }
}

/// What is said before candidates are tried a second time: `seconds` with one decimal
/// is the length of the first try.
pub fn retry_notice(seconds: &str, prefix: usize, sample_rate: u32) -> (text: String)
    ensures
        text@ == "alignment scorer found 0 frames in "@ + seconds@
            + " s slice; retrying with full "@ + decimal(
            (prefix as int / (if sample_rate == 0 {
                1
            } else {
                sample_rate as int
            })) as nat,
        ) + " s prefix"@,
{
    let rate: usize = if sample_rate == 0 { 1 } else { sample_rate as usize };
    "alignment scorer found 0 frames in ".to_string().concat(seconds).concat(
        " s slice; retrying with full ",
    ).concat(decimal_string((prefix / rate) as u64).as_str()).concat(" s prefix")
}

/// What the scorer's progress is reported as: the first report, over both tries,
/// announces the number of candidates, the others the candidate that was tried.
pub fn announce_progress(announced: bool, current: usize, total: usize) -> (event: RxEvent)
    ensures
        event == (if announced {
            RxEvent::AlignmentProgress { current }
        } else {
            RxEvent::AlignmentStarted { total }
        }),
{
    if announced {
        RxEvent::AlignmentProgress { current }
    } else {
        RxEvent::AlignmentStarted { total }
    }
}

/// An alignment is searched at most twice: the second search always ends the job.
pub proof fn law_alignment_ends(j: AlignJob, best: Option<(usize, usize)>)
    requires
        j.phase == AlignPhase::Rescoring,
    ensures
        align_after(j, AlignEvent::Scored(best)).0.phase == AlignPhase::Done,
{
}

/// The samples that an alignment keeps are a tail of the prefix.
pub proof fn law_kept_samples_are_a_tail(j: AlignJob, event: AlignEvent)
    ensures
        align_after(j, event).1 matches AlignModel::Ready { from, frames } ==> from <= j.prefix,
{
}

} // verus!
