//! What the receiver window knows: the frames received, the counters, the status
//! line, the event log and the progress of alignment, and how each event from the
//! workers changes them.
use std::collections::VecDeque;
use vstd::prelude::*;
use vstd::string::StringExecFns;
use crate::image::{
    build, builds, geoscan_step, image_fault, ssdv_step, ImageReassembler, PacketUpdate,
    Reassembler,
};
use crate::rows::{hex_pairs, spaced_hex, FrameRow};
use crate::satellite::ImageDef;
use crate::slices::copy_range;
use crate::sstv::{SstvImage, SstvMode};
use crate::text::{decimal, decimal_string};

verus! {

/// Frames that the table holds; older ones are dropped.
pub const MAX_FRAMES: usize = 512;

/// Entries that the event log holds; older ones are dropped.
pub const MAX_DIAGNOSTICS: usize = 24;

/// Rows that the waterfall holds; older ones are dropped.
pub const MAX_WATERFALL_ROWS: usize = 256;

/// Events that are taken from the queue in one pass.
pub const MAX_EVENTS_PER_POLL: usize = 128;

/// Weight of an entry of the event log.
#[derive(Debug, Clone, Copy, PartialEq, Eq, Structural)]
pub enum DiagnosticLevel {
    /// Something happened.
    Info,
    /// Something was lost.
    Warn,
    /// Something failed.
    Error,
}

/// An entry of the event log.
#[derive(Debug)]
pub struct DiagnosticEntry {
    /// Weight of the entry.
    pub level: DiagnosticLevel,
    /// What is said.
    pub text: String,
}

/// Where samples come from.
#[derive(Debug, Clone, Copy, PartialEq, Eq, Structural)]
pub enum InputMode {
    /// A sound card.
    Soundcard,
    /// A recording.
    WavFile,
}

impl InputMode {
    /// The words for an input.
    pub open spec fn words(self) -> Seq<char> {
        match self {
            InputMode::Soundcard => "soundcard"@,
            InputMode::WavFile => "audio file"@,
        }
    }

    /// The words for the input, as they stand in the event log.
    pub fn label(self) -> (text: &'static str)
        ensures
            text@ == self.words(),
    {
        match self {
            InputMode::Soundcard => "soundcard",
            InputMode::WavFile => "audio file",
        }
    }
}

/// The lower view of the window.
#[derive(Debug, Clone, Copy, PartialEq, Eq, Structural)]
pub enum BottomTab {
    /// The frame table and the dump.
    Frames,
    /// The image and its packets.
    Image,
}

/// Progress of aligning a recording.
#[derive(Debug, Clone, Copy, PartialEq, Eq, Structural)]
pub enum AlignmentState {
    /// Nothing is aligned.
    Idle,
    /// Candidates are being tried.
    Aligning {
        /// Candidates tried so far.
        current: usize,
        /// Candidates in all.
        total: usize,
    },
    /// An alignment was found.
    Ready,
    /// No alignment was found.
    Failed,
}

/// Counters of a decoding pipeline since it started.
#[derive(Debug, Clone, Copy, PartialEq, Eq)]
pub struct PipelineStats {
    /// Bits demodulated.
    pub total_bits: u64,
    /// Syncwords tried, where the framer looks for one.
    pub sync_attempts: Option<u64>,
    /// Syncwords matched, where the framer looks for one.
    pub sync_locked: Option<u64>,
    /// Frames handed on.
    pub frames_emitted: u64,
    /// Frames whose checksum held, where the codec has one.
    pub crc_ok: Option<u64>,
    /// Frames whose checksum failed, where the codec has one.
    pub crc_fail: Option<u64>,
}

/// What the workers report.
#[allow(inconsistent_fields)]
#[derive(Debug)]
pub enum RxEvent {
    /// A frame for the table.
    Frame(FrameRow),
    /// A frame was lost, with the reason.
    Dropped(String),
    /// This many samples for the spectrum.
    Samples(usize),
    /// Progress through the input.
    Progress {
        /// Samples read so far.
        processed: u64,
        /// Samples in all, where that is known.
        total: Option<u64>,
    },
    /// The input was opened.
    SourceInfo {
        /// Short name of the input.
        label: String,
        /// Samples per second.
        sample_rate: u32,
    },
    /// The worker ended.
    Stopped,
    /// Alignment began.
    AlignmentStarted {
        /// Candidates in all.
        total: usize,
    },
    /// Alignment went on.
    AlignmentProgress {
        /// Candidates tried so far.
        current: usize,
    },
    /// Alignment ended with a setup.
    AlignmentReady {
        /// Tuning in Hz, with one decimal.
        tuning: String,
        /// Samples to skip.
        sample_skip: usize,
        /// Frames decoded from the prefix.
        frames: usize,
    },
    /// Alignment ended without a setup, with the reason.
    AlignmentFailed(String),
    /// A payload for the image reassembler.
    ImagePayload {
        /// The payload.
        bytes: Vec<u8>,
        /// Whether the reassembler took it; nothing where there is none.
        taken: Option<bool>,
    },
    /// A whole SSTV image.
    Sstv(SstvImage),
    /// Counters of the pipeline.
    Stats(PipelineStats),
}

/// The state of the receiver window.
#[derive(Debug)]
pub struct Receiver {
    /// Frames in order of arrival.
    pub frames: VecDeque<FrameRow>,
    /// Number of the selected frame.
    pub selected_frame: Option<usize>,
    /// Frames received since the table was cleared.
    pub frames_seen: usize,
    /// Frames lost since the table was cleared.
    pub dropped_frames: usize,
    /// Samples shown in the spectrum.
    pub samples_processed: u64,
    /// Samples of the input read so far.
    pub input_progress_processed: u64,
    /// Samples of the input in all, where that is known.
    pub input_progress_total: Option<u64>,
    /// Samples per second of the input.
    pub input_rate: u32,
    /// A worker is decoding.
    pub running: bool,
    /// The status line.
    pub status: String,
    /// Short name of the input.
    pub source_description: String,
    /// The event log.
    pub diagnostics: VecDeque<DiagnosticEntry>,
    /// Progress of aligning a recording.
    pub alignment_state: AlignmentState,
    /// Latest counters of the pipeline.
    pub latest_stats: Option<PipelineStats>,
    /// Payloads that the reassembler took.
    pub image_payload_hits: u32,
    /// Payloads that the reassembler did not take.
    pub image_payload_misses: u32,
    /// A payload that was not taken has been logged.
    pub image_payload_logged: bool,
    /// The image has changed since it was last drawn.
    pub image_dirty: bool,
    /// Latest SSTV image.
    pub latest_sstv: Option<SstvImage>,
    /// The SSTV image has changed since it was last drawn.
    pub sstv_dirty: bool,
    /// The lower view.
    pub bottom_tab: BottomTab,
    /// Outcome of the latest export.
    pub last_export_status: Option<String>,
}

/// The contents of a receiver window.
#[verifier::ext_equal]
pub struct ReceiverModel {
    pub frames: Seq<FrameRow>,
    pub selected: Option<usize>,
    pub seen: nat,
    pub dropped: nat,
    pub samples: nat,
    pub processed: u64,
    pub total: Option<u64>,
    pub rate: u32,
    pub running: bool,
    pub status: Seq<char>,
    pub source: Seq<char>,
    /// Entries of the event log.
    pub notes: Seq<(DiagnosticLevel, Seq<char>)>,
    pub alignment: AlignmentState,
    pub stats: Option<PipelineStats>,
    pub hits: nat,
    pub misses: nat,
    pub logged: bool,
    pub dirty: bool,
    pub sstv: Option<SstvImage>,
    pub sstv_dirty: bool,
    pub tab: BottomTab,
    pub export: Option<Seq<char>>,
}

/// The contents of an event log.
pub open spec fn notes_of(entries: Seq<DiagnosticEntry>) -> Seq<(DiagnosticLevel, Seq<char>)> {
    Seq::new(entries.len(), |i: int| (entries[i].level, entries[i].text@))
}

impl View for Receiver {
    type V = ReceiverModel;

    open spec fn view(&self) -> ReceiverModel {
        ReceiverModel {
            frames: self.frames@,
            selected: self.selected_frame,
            seen: self.frames_seen as nat,
            dropped: self.dropped_frames as nat,
            samples: self.samples_processed as nat,
            processed: self.input_progress_processed,
            total: self.input_progress_total,
            rate: self.input_rate,
            running: self.running,
            status: self.status@,
            source: self.source_description@,
            notes: notes_of(self.diagnostics@),
            alignment: self.alignment_state,
            stats: self.latest_stats,
            hits: self.image_payload_hits as nat,
            misses: self.image_payload_misses as nat,
            logged: self.image_payload_logged,
            dirty: self.image_dirty,
            sstv: self.latest_sstv,
            sstv_dirty: self.sstv_dirty,
            tab: self.bottom_tab,
            export: match self.last_export_status {
                Some(s) => Some(s@),
                None => None,
            },
        }
    }
}

/// The last `n` entries of a sequence, or all where there are fewer.
pub open spec fn latest<T>(s: Seq<T>, n: int) -> Seq<T> {
    if s.len() > n {
        s.subrange(s.len() - n, s.len() as int)
    } else {
        s
    }
}

/// The state with one more entry in the event log.
pub open spec fn noted(m: ReceiverModel, level: DiagnosticLevel, text: Seq<char>) -> ReceiverModel {
    ReceiverModel { notes: latest(m.notes.push((level, text)), MAX_DIAGNOSTICS as int), ..m }
}

/// The state with a new status line that is also logged.
pub open spec fn announced(
    m: ReceiverModel,
    level: DiagnosticLevel,
    text: Seq<char>,
) -> ReceiverModel {
    noted(ReceiverModel { status: text, ..m }, level, text)
}

/// The words for an SSTV mode.
pub open spec fn mode_words(mode: SstvMode) -> Seq<char> {
    match mode {
        SstvMode::Robot36 => "Robot36"@,
        SstvMode::Pd120 => "Pd120"@,
    }
}

/// The words for an SSTV mode.
pub fn mode_label(mode: SstvMode) -> (text: &'static str)
    ensures
        text@ == mode_words(mode),
{
    match mode {
        SstvMode::Robot36 => "Robot36",
        SstvMode::Pd120 => "Pd120",
    }
}

/// The status line of some progress.
pub open spec fn progress_words(processed: u64, total: Option<u64>) -> Seq<char> {
    match total {
        Some(total) => "progress "@ + decimal(processed as nat) + " / "@ + decimal(total as nat),
        None => "progress "@ + decimal(processed as nat),
    }
}

/// The status line of a finished alignment.
pub open spec fn ready_words(tuning: Seq<char>, sample_skip: usize, frames: usize) -> Seq<char> {
    "IQ alignment ready: tuning="@ + tuning + " Hz skip="@ + decimal(sample_skip as nat)
        + " prefix_frames="@ + decimal(frames as nat)
}

/// The first sixteen bytes of a payload, or all where there are fewer.
pub open spec fn payload_head(bytes: Seq<u8>) -> Seq<u8> {
    if bytes.len() > 16 {
        bytes.take(16)
    } else {
        bytes
    }
}

/// The log entry of the first payload that was not taken.
pub open spec fn miss_words(bytes: Seq<u8>) -> Seq<char> {
    "image: payload did not match header signature; len="@ + decimal(bytes.len()) + " prefix=["@
        + hex_pairs(payload_head(bytes)) + "]"@
}

/// The log entry of an SSTV image.
pub open spec fn sstv_words(image: SstvImage) -> Seq<char> {
    "SSTV: decoded "@ + mode_words(image.mode) + " image ("@ + decimal(image.width as nat) + "x"@
        + decimal(image.height as nat) + ")"@
}

/// A counter that stays at its largest value.
pub open spec fn counted(n: nat) -> nat {
    if n < u32::MAX {
        n + 1
    } else {
        n
    }
}

/// The state after one event.
pub open spec fn step(m: ReceiverModel, event: RxEvent) -> ReceiverModel {
    match event {
        RxEvent::Frame(row) => ReceiverModel {
            seen: m.seen + 1,
            selected: match m.selected {
                Some(i) => Some(i),
                None => Some(row.index),
            },
            frames: latest(m.frames.push(row), MAX_FRAMES as int),
            ..m
        },
        RxEvent::Dropped(reason) => announced(
            ReceiverModel { dropped: m.dropped + 1, ..m },
            DiagnosticLevel::Warn,
            reason@,
        ),
        RxEvent::Samples(_) => m,
        RxEvent::Progress { processed, total } => ReceiverModel {
            processed,
            total,
            status: progress_words(processed, total),
            ..m
        },
        RxEvent::SourceInfo { label, sample_rate } => announced(
            ReceiverModel { rate: sample_rate, source: label@, ..m },
            DiagnosticLevel::Info,
            label@,
        ),
        RxEvent::Stopped => announced(
            ReceiverModel { running: false, ..m },
            DiagnosticLevel::Info,
            "RX stopped"@,
        ),
        RxEvent::AlignmentStarted { total } => announced(
            ReceiverModel { alignment: AlignmentState::Aligning { current: 0, total }, ..m },
            DiagnosticLevel::Info,
            "aligning IQ ("@ + decimal(total as nat) + " candidates)"@,
        ),
        RxEvent::AlignmentProgress { current } => match m.alignment {
            AlignmentState::Aligning { current: _, total } => ReceiverModel {
                alignment: AlignmentState::Aligning { current, total },
                ..m
            },
            _ => m,
        },
        RxEvent::AlignmentReady { tuning, sample_skip, frames } => announced(
            ReceiverModel { alignment: AlignmentState::Ready, ..m },
            DiagnosticLevel::Info,
            ready_words(tuning@, sample_skip, frames),
        ),
        RxEvent::AlignmentFailed(reason) => announced(
            ReceiverModel { alignment: AlignmentState::Failed, ..m },
            DiagnosticLevel::Error,
            "IQ alignment failed: "@ + reason@,
        ),
        RxEvent::ImagePayload { bytes, taken } => match taken {
            None => m,
            Some(true) => ReceiverModel { dirty: true, hits: counted(m.hits), ..m },
            Some(false) => {
                let missed = ReceiverModel { misses: counted(m.misses), logged: true, ..m };
                if m.logged {
                    missed
                } else {
                    noted(missed, DiagnosticLevel::Info, miss_words(bytes@))
                }
            },
        },
        RxEvent::Sstv(image) => ReceiverModel {
            sstv: Some(image),
            sstv_dirty: true,
            tab: BottomTab::Image,
            ..noted(m, DiagnosticLevel::Info, sstv_words(image))
        },
        RxEvent::Stats(stats) => ReceiverModel { stats: Some(stats), ..m },
    }
}

/// The state after a sequence of events.
pub open spec fn run(m: ReceiverModel, events: Seq<RxEvent>) -> ReceiverModel
    decreases events.len(),
{
    if events.len() == 0 {
        m
    } else {
        step(run(m, events.drop_last()), events.last())
    }
}

/// The samples that some events carry.
pub open spec fn samples_in(events: Seq<RxEvent>) -> nat
    decreases events.len(),
{
    if events.len() == 0 {
        0
    } else {
        samples_in(events.drop_last()) + match events.last() {
            RxEvent::Samples(n) => n as nat,
            _ => 0,
        }
    }
}

/// The position of the last event that carries samples.
pub open spec fn last_samples(events: Seq<RxEvent>) -> Option<int>
    decreases events.len(),
{
    if events.len() == 0 {
        None
    } else if events.last() is Samples {
        Some(events.len() - 1)
    } else {
        last_samples(events.drop_last())
    }
}

/// An empty window at rest.
pub open spec fn at_rest() -> ReceiverModel {
    ReceiverModel {
        frames: Seq::empty(),
        selected: None,
        seen: 0,
        dropped: 0,
        samples: 0,
        processed: 0,
        total: None,
        rate: 48_000,
        running: false,
        status: Seq::empty(),
        source: "soundcard default"@,
        notes: Seq::empty(),
        alignment: AlignmentState::Idle,
        stats: None,
        hits: 0,
        misses: 0,
        logged: false,
        dirty: false,
        sstv: None,
        sstv_dirty: false,
        tab: BottomTab::Frames,
        export: None,
    }
}

impl Receiver {
    /// The table and the log keep their limits.
    pub open spec fn wf(&self) -> bool {
        self.frames@.len() <= MAX_FRAMES && self.diagnostics@.len() <= MAX_DIAGNOSTICS
    }

    /// An empty window at rest.
    pub fn new() -> (r: Self)
        ensures
            r.wf(),
            r@ == at_rest(),
    {
        let r = Receiver {
            frames: VecDeque::new(),
            selected_frame: None,
            frames_seen: 0,
            dropped_frames: 0,
            samples_processed: 0,
            input_progress_processed: 0,
            input_progress_total: None,
            input_rate: 48_000,
            running: false,
            status: "".to_string(),
            source_description: "soundcard default".to_string(),
            diagnostics: VecDeque::new(),
            alignment_state: AlignmentState::Idle,
            latest_stats: None,
            image_payload_hits: 0,
            image_payload_misses: 0,
            image_payload_logged: false,
            image_dirty: false,
            latest_sstv: None,
            sstv_dirty: false,
            bottom_tab: BottomTab::Frames,
            last_export_status: None,
        };
        proof {
            reveal_strlit("");
            assert(r@ =~= at_rest());
        }
        r
    }

    /// Add an entry to the event log, and drop the oldest where it is full.
    pub fn push_diagnostic(&mut self, level: DiagnosticLevel, text: String)
        requires
            old(self).wf(),
        ensures
            final(self).wf(),
            final(self)@ == noted(old(self)@, level, text@),
    {
        let ghost before = self.diagnostics@;
        let ghost said = text@;
        self.diagnostics.push_back(DiagnosticEntry { level, text });
        if self.diagnostics.len() > MAX_DIAGNOSTICS {
            let _ = self.diagnostics.pop_front();
        }
        proof {
            assert(self@.notes =~= latest(
                notes_of(before).push((level, said)),
                MAX_DIAGNOSTICS as int,
            ));
            assert(self@ =~= noted(old(self)@, level, said));
        }
    }

    /// Set the status line and log it.
    fn announce(&mut self, level: DiagnosticLevel, text: String)
        requires
            old(self).wf(),
        ensures
            final(self).wf(),
            final(self)@ == announced(old(self)@, level, text@),
    {
        self.status = text.clone();
        self.push_diagnostic(level, text);
    }

    fn push_frame(&mut self, row: FrameRow)
        requires
            old(self).wf(),
            old(self).frames_seen < usize::MAX,
        ensures
            final(self).wf(),
            final(self)@ == step(old(self)@, RxEvent::Frame(row)),
    {
        self.frames_seen = self.frames_seen + 1;
        if self.selected_frame.is_none() {
            self.selected_frame = Some(row.index);
        }
        self.frames.push_back(row);
        if self.frames.len() > MAX_FRAMES {
            let _ = self.frames.pop_front();
        }
        proof {
            assert(self@.frames =~= latest(old(self)@.frames.push(row), MAX_FRAMES as int));
            assert(self@ =~= step(old(self)@, RxEvent::Frame(row)));
        }
    }

    fn count_payload(&mut self, bytes: &Vec<u8>, taken: Option<bool>)
        requires
            old(self).wf(),
        ensures
            final(self).wf(),
            final(self)@ == step(old(self)@, RxEvent::ImagePayload { bytes: *bytes, taken }),
    {
        match taken {
            None => {},
            Some(true) => {
                self.image_dirty = true;
                if self.image_payload_hits < u32::MAX {
                    self.image_payload_hits = self.image_payload_hits + 1;
                }
            },
            Some(false) => {
                if self.image_payload_misses < u32::MAX {
                    self.image_payload_misses = self.image_payload_misses + 1;
                }
                if !self.image_payload_logged {
                    self.image_payload_logged = true;
                    let prefix = if bytes.len() > 16 {
                        let head = copy_range(bytes.as_slice(), 0, 16);
                        assert(head@ =~= bytes@.take(16));
                        spaced_hex(head.as_slice())
                    } else {
                        spaced_hex(bytes.as_slice())
                    };
                    let text = "image: payload did not match header signature; len=".to_string().concat(
                        decimal_string(bytes.len() as u64).as_str(),
                    ).concat(" prefix=[").concat(prefix.as_str()).concat("]");
                    self.push_diagnostic(DiagnosticLevel::Info, text);
                }
            },
        }
        assert(self@ =~= step(old(self)@, RxEvent::ImagePayload { bytes: *bytes, taken }));
    }

    fn show_sstv(&mut self, image: SstvImage)
        requires
            old(self).wf(),
        ensures
            final(self).wf(),
            final(self)@ == step(old(self)@, RxEvent::Sstv(image)),
    {
        let text = "SSTV: decoded ".to_string().concat(mode_label(image.mode)).concat(
            " image (",
        ).concat(decimal_string(image.width as u64).as_str()).concat("x").concat(
            decimal_string(image.height as u64).as_str(),
        ).concat(")");
        self.push_diagnostic(DiagnosticLevel::Info, text);
        self.latest_sstv = Some(image);
        self.sstv_dirty = true;
        self.bottom_tab = BottomTab::Image;
        assert(self@ =~= step(old(self)@, RxEvent::Sstv(image)));
    }

    /// Take one event.
    pub fn apply(&mut self, event: RxEvent)
        requires
            old(self).wf(),
            old(self).frames_seen < usize::MAX,
            old(self).dropped_frames < usize::MAX,
        ensures
            final(self).wf(),
            final(self)@ == step(old(self)@, event),
    {
        match event {
            RxEvent::Frame(row) => {
                self.push_frame(row);
            },
            RxEvent::Dropped(reason) => {
                self.dropped_frames = self.dropped_frames + 1;
                self.announce(DiagnosticLevel::Warn, reason);
            },
            RxEvent::Samples(_) => {},
            RxEvent::Progress { processed, total } => {
                self.input_progress_processed = processed;
                self.input_progress_total = total;
                let words = "progress ".to_string().concat(decimal_string(processed).as_str());
                self.status = match total {
                    Some(total) => words.concat(" / ").concat(decimal_string(total).as_str()),
                    None => words,
                };
            },
            RxEvent::SourceInfo { label, sample_rate } => {
                self.input_rate = sample_rate;
                self.source_description = label.clone();
                self.announce(DiagnosticLevel::Info, label);
            },
            RxEvent::Stopped => {
                self.running = false;
                self.announce(DiagnosticLevel::Info, "RX stopped".to_string());
            },
            RxEvent::AlignmentStarted { total } => {
                self.alignment_state = AlignmentState::Aligning { current: 0, total };
                let text = "aligning IQ (".to_string().concat(
                    decimal_string(total as u64).as_str(),
                ).concat(" candidates)");
                self.announce(DiagnosticLevel::Info, text);
            },
            RxEvent::AlignmentProgress { current } => {
                match self.alignment_state {
                    AlignmentState::Aligning { current: _, total } => {
                        self.alignment_state = AlignmentState::Aligning { current, total };
                    },
                    _ => {},
                }
            },
            RxEvent::AlignmentReady { tuning, sample_skip, frames } => {
                self.alignment_state = AlignmentState::Ready;
                let text = "IQ alignment ready: tuning=".to_string().concat(
                    tuning.as_str(),
                ).concat(" Hz skip=").concat(decimal_string(sample_skip as u64).as_str()).concat(
                    " prefix_frames=",
                ).concat(decimal_string(frames as u64).as_str());
                self.announce(DiagnosticLevel::Info, text);
            },
            RxEvent::AlignmentFailed(reason) => {
                self.alignment_state = AlignmentState::Failed;
                let text = "IQ alignment failed: ".to_string().concat(reason.as_str());
                self.announce(DiagnosticLevel::Error, text);
            },
            RxEvent::ImagePayload { bytes, taken } => {
                self.count_payload(&bytes, taken);
            },
            RxEvent::Sstv(image) => {
                self.show_sstv(image);
            },
            RxEvent::Stats(stats) => {
                self.latest_stats = Some(stats);
            },
        }
        assert(self@ =~= step(old(self)@, event));
    }

    /// Take a batch of events in order. The samples that they carry are counted, and
    /// the position of the last event with samples is returned: its samples make the
    /// next row of the waterfall.
    pub fn poll_events(&mut self, events: Vec<RxEvent>) -> (row: Option<usize>)
        requires
            old(self).wf(),
            events@.len() <= MAX_EVENTS_PER_POLL,
            old(self).frames_seen + events@.len() <= usize::MAX,
            old(self).dropped_frames + events@.len() <= usize::MAX,
            old(self).samples_processed + samples_in(events@) <= u64::MAX,
        ensures
            final(self).wf(),
            final(self)@ == (ReceiverModel {
                samples: old(self)@.samples + samples_in(events@),
                ..run(old(self)@, events@)
            }),
            match (row, last_samples(events@)) {
                (Some(i), Some(j)) => i == j,
                (None, None) => true,
                _ => false,
            },
    {
        let ghost all = events@;
        let ghost start = self@;
        let mut rest = events;
        let mut taken: usize = 0;
        let mut samples: u64 = 0;
        let mut row: Option<usize> = None;
        assert(all.take(0) =~= Seq::<RxEvent>::empty());
        assert(all.skip(0) =~= all);
        while rest.len() > 0
            invariant
                self.wf(),
                taken + rest@.len() == all.len(),
                all.len() <= MAX_EVENTS_PER_POLL,
                rest@ == all.skip(taken as int),
                self@ == run(start, all.take(taken as int)),
                start.seen + all.len() <= usize::MAX,
                start.dropped + all.len() <= usize::MAX,
                start.samples + samples_in(all) <= u64::MAX,
                self.frames_seen <= start.seen + taken,
                self.dropped_frames <= start.dropped + taken,
                self@.samples == start.samples,
                samples == samples_in(all.take(taken as int)),
                match (row, last_samples(all.take(taken as int))) {
                    (Some(i), Some(j)) => i == j,
                    (None, None) => true,
                    _ => false,
                },
            decreases rest@.len(),
        {
            let event = rest.remove(0);
            proof {
                assert(event == all[taken as int]);
                assert(all.take(taken + 1).drop_last() =~= all.take(taken as int));
                assert(rest@ =~= all.skip(taken + 1));
                lemma_samples_grow(all, taken + 1);
            }
            match event {
                RxEvent::Samples(n) => {
                    samples = samples + n as u64;
                    row = Some(taken);
                },
                _ => {},
            }
            self.apply(event);
            taken = taken + 1;
        }
        assert(all.take(taken as int) =~= all);
        self.samples_processed = self.samples_processed + samples;
        assert(self@ =~= (ReceiverModel {
            samples: start.samples + samples_in(all),
            ..run(start, all)
        }));
        row
    }

    /// The row of the selected frame, where the table still holds it.
    pub fn selected_frame_row(&self) -> (row: Option<&FrameRow>)
        ensures
            match row {
                Some(r) => self.frames@.contains(*r) && self.selected_frame == Some(r.index),
                None => forall|i: int|
                    0 <= i < self.frames@.len() ==> self.selected_frame != Some(
                        (#[trigger] self.frames@[i]).index,
                    ),
            },
            match first_with_index(self.frames@, self.selected_frame, 0) {
                Some(i) => row == Some(&self.frames@[i]),
                None => row is None,
            },
    {
        let selected: usize = match self.selected_frame {
            Some(s) => s,
            None => {
                proof {
                    lemma_no_selection(self.frames@, 0);
                }
                return None;
            },
        };
        let mut i: usize = 0;
        while i < self.frames.len()
            invariant
                i <= self.frames@.len(),
                self.selected_frame == Some(selected),
                first_with_index(self.frames@, Some(selected), 0) == first_with_index(
                    self.frames@,
                    Some(selected),
                    i as int,
                ),
                forall|k: int|
                    0 <= k < i ==> selected != (#[trigger] self.frames@[k]).index,
            decreases self.frames@.len() - i,
        {
            if self.frames[i].index == selected {
                return Some(&self.frames[i]);
            }
            i = i + 1;
        }
        None
    }

    /// Empty the table and reset the counters.
    pub fn clear_frames(&mut self)
        requires
            old(self).wf(),
        ensures
            final(self).wf(),
            final(self)@ == cleared(old(self)@),
    {
        self.frames = VecDeque::new();
        self.selected_frame = None;
        self.dropped_frames = 0;
        self.frames_seen = 0;
        self.samples_processed = 0;
        self.input_progress_processed = 0;
        self.input_progress_total = None;
        self.latest_stats = None;
        assert(self@ =~= cleared(old(self)@));
    }

    /// Say that satellite definitions were loaded, and what is selected now.
    pub fn satellites_loaded(
        &mut self,
        count: usize,
        satellite: Option<&str>,
        downlink: Option<&str>,
    )
        requires
            old(self).wf(),
        ensures
            final(self).wf(),
            final(self)@ == loaded(old(self)@, count, words_in(satellite), words_in(downlink)),
    {
        let text = "loaded ".to_string().concat(decimal_string(count as u64).as_str()).concat(
            " satellite definitions",
        );
        self.announce(DiagnosticLevel::Info, text);
        self.note_selection(satellite, None);
        self.push_diagnostic(
            DiagnosticLevel::Info,
            "selected first supported downlink".to_string(),
        );
        self.note_selection(None, downlink);
    }

    /// Say that satellite definitions could not be loaded.
    pub fn satellites_failed(&mut self, dir: &str, reason: &str)
        requires
            old(self).wf(),
        ensures
            final(self).wf(),
            final(self)@ == noted(
                ReceiverModel { status: "failed to load satellites"@, ..old(self)@ },
                DiagnosticLevel::Error,
                "failed to load satellites from "@ + dir@ + ": "@ + reason@,
            ),
    {
        self.status = "failed to load satellites".to_string();
        assert(self@ =~= (ReceiverModel { status: "failed to load satellites"@, ..old(self)@ }));
        let text = "failed to load satellites from ".to_string().concat(dir).concat(": ").concat(
            reason,
        );
        self.push_diagnostic(DiagnosticLevel::Error, text);
    }

    /// Say which satellite and which downlink are selected, as far as they are given.
    pub fn note_selection(&mut self, satellite: Option<&str>, downlink: Option<&str>)
        requires
            old(self).wf(),
        ensures
            final(self).wf(),
            final(self)@ == selection_noted(old(self)@, words_in(satellite), words_in(downlink)),
    {
        if let Some(name) = satellite {
            let text = "selected satellite ".to_string().concat(name);
            self.push_diagnostic(DiagnosticLevel::Info, text);
        }
        if let Some(name) = downlink {
            let text = "selected downlink ".to_string().concat(name);
            self.push_diagnostic(DiagnosticLevel::Info, text);
        }
    }

    /// Say how many sound cards there are, and where the chosen one is gone, that the
    /// default one takes its place.
    pub fn devices_listed(&mut self, count: usize, chosen_is_gone: bool)
        requires
            old(self).wf(),
        ensures
            final(self).wf(),
            final(self)@ == ({
                let listed = noted(
                    old(self)@,
                    DiagnosticLevel::Info,
                    "soundcard: enumerated "@ + decimal(count as nat) + " input device(s)"@,
                );
                if chosen_is_gone {
                    noted(
                        listed,
                        DiagnosticLevel::Warn,
                        "soundcard: previously-selected device is no longer available; falling back to default"@,
                    )
                } else {
                    listed
                }
            }),
    {
        let text = "soundcard: enumerated ".to_string().concat(
            decimal_string(count as u64).as_str(),
        ).concat(" input device(s)");
        self.push_diagnostic(DiagnosticLevel::Info, text);
        if chosen_is_gone {
            self.push_diagnostic(
                DiagnosticLevel::Warn,
                "soundcard: previously-selected device is no longer available; falling back to default".to_string(),
            );
        }
    }

    /// Turn to a recording with this short name: the table is emptied, and what was
    /// known of an alignment is void.
    pub fn choose_recording(&mut self, label: &str)
        requires
            old(self).wf(),
        ensures
            final(self).wf(),
            final(self)@ == (ReceiverModel {
                source: "audio file "@ + label@,
                status: "selected audio input "@ + label@,
                alignment: AlignmentState::Idle,
                ..cleared(old(self)@)
            }),
    {
        self.clear_frames();
        self.source_description = "audio file ".to_string().concat(label);
        self.status = "selected audio input ".to_string().concat(label);
        self.alignment_state = AlignmentState::Idle;
        assert(self@ =~= (ReceiverModel {
            source: "audio file "@ + label@,
            status: "selected audio input "@ + label@,
            alignment: AlignmentState::Idle,
            ..cleared(old(self)@)
        }));
    }

    /// Turn to the sound card.
    pub fn choose_soundcard(&mut self)
        requires
            old(self).wf(),
        ensures
            final(self).wf(),
            final(self)@ == (ReceiverModel {
                source: "soundcard"@,
                status: "selected soundcard input"@,
                ..old(self)@
            }),
    {
        self.source_description = "soundcard".to_string();
        self.status = "selected soundcard input".to_string();
        assert(self@ =~= (ReceiverModel {
            source: "soundcard"@,
            status: "selected soundcard input"@,
            ..old(self)@
        }));
    }

    /// Empty the event log.
    pub fn clear_diagnostics(&mut self)
        requires
            old(self).wf(),
        ensures
            final(self).wf(),
            final(self)@ == (ReceiverModel { notes: Seq::empty(), ..old(self)@ }),
    {
        self.diagnostics = VecDeque::new();
        assert(self@ =~= (ReceiverModel { notes: Seq::empty(), ..old(self)@ }));
    }

    /// The entries of the event log by weight: informations, warnings, errors.
    pub fn diagnostic_counts(&self) -> (counts: (usize, usize, usize))
        ensures
            counts.0 == level_count(self@.notes, DiagnosticLevel::Info),
            counts.1 == level_count(self@.notes, DiagnosticLevel::Warn),
            counts.2 == level_count(self@.notes, DiagnosticLevel::Error),
    {
        let ghost notes = self@.notes;
        let mut info: usize = 0;
        let mut warn: usize = 0;
        let mut error: usize = 0;
        let mut i: usize = 0;
        assert(notes.take(0) =~= Seq::empty());
        while i < self.diagnostics.len()
            invariant
                i <= self.diagnostics@.len(),
                notes == notes_of(self.diagnostics@),
                info == level_count(notes.take(i as int), DiagnosticLevel::Info),
                warn == level_count(notes.take(i as int), DiagnosticLevel::Warn),
                error == level_count(notes.take(i as int), DiagnosticLevel::Error),
                info <= i,
                warn <= i,
                error <= i,
            decreases self.diagnostics@.len() - i,
        {
            proof {
                assert(notes.take(i + 1).drop_last() =~= notes.take(i as int));
            }
            match self.diagnostics[i].level {
                DiagnosticLevel::Info => {
                    info = info + 1;
                },
                DiagnosticLevel::Warn => {
                    warn = warn + 1;
                },
                DiagnosticLevel::Error => {
                    error = error + 1;
                },
            }
            i = i + 1;
        }
        assert(notes.take(notes.len() as int) =~= notes);
        (info, warn, error)
    }

    /// Begin reception, where nothing stands against it: a worker already runs, no
    /// satellite or downlink is selected, the downlink cannot be decoded, or a
    /// recording is wanted and none is chosen. Returns whether a worker is to be
    /// started.
    pub fn start(
        &mut self,
        satellite_selected: bool,
        downlink: &Option<DownlinkChoice>,
        input: InputMode,
        has_path: bool,
    ) -> (go: bool)
        requires
            old(self).wf(),
        ensures
            final(self).wf(),
            go == may_start(old(self)@, satellite_selected, *downlink, input, has_path),
            final(self)@ == started(old(self)@, satellite_selected, *downlink, input, has_path),
    {
        if self.running {
            return false;
        }
        if !satellite_selected {
            self.status = "no satellite selected".to_string();
            assert(self@ =~= started(old(self)@, satellite_selected, *downlink, input, has_path));
            return false;
        }
        match downlink {
            None => {
                self.status = "no downlink selected".to_string();
                assert(self@ =~= started(
                    old(self)@,
                    satellite_selected,
                    *downlink,
                    input,
                    has_path,
                ));
                false
            },
            Some(choice) => {
                if !choice.supported {
                    let text = "selected downlink is not supported: ".to_string().concat(
                        choice.label.as_str(),
                    );
                    self.announce(DiagnosticLevel::Error, text);
                    return false;
                }
                if input == InputMode::WavFile && !has_path {
                    self.announce(DiagnosticLevel::Warn, "no WAV file selected".to_string());
                    return false;
                }
                self.running = true;
                self.input_progress_processed = 0;
                self.input_progress_total = None;
                self.status = "RX started".to_string();
                let text = "started ".to_string().concat(choice.label.as_str()).concat(
                    " with ",
                ).concat(input.label());
                self.push_diagnostic(DiagnosticLevel::Info, text);
                assert(self@ =~= started(
                    old(self)@,
                    satellite_selected,
                    *downlink,
                    input,
                    has_path,
                ));
                true
            },
        }
    }

    /// End reception. `has_worker` tells whether a worker or its stop switch is still
    /// held; where none is and nothing runs, nothing changes. Returns whether
    /// something was ended.
    pub fn stop(&mut self, has_worker: bool) -> (ended: bool)
        requires
            old(self).wf(),
        ensures
            final(self).wf(),
            ended == (old(self)@.running || has_worker),
            final(self)@ == (if ended {
                announced(
                    ReceiverModel { running: false, ..old(self)@ },
                    DiagnosticLevel::Info,
                    "RX stopped"@,
                )
            } else {
                old(self)@
            }),
    {
        if !self.running && !has_worker {
            return false;
        }
        self.running = false;
        self.announce(DiagnosticLevel::Info, "RX stopped".to_string());
        true
    }

    /// Say how an export ended.
    pub fn note_export(&mut self, outcome: &ExportOutcome)
        requires
            old(self).wf(),
        ensures
            final(self).wf(),
            final(self)@ == export_noted(old(self)@, *outcome),
    {
        match outcome {
            ExportOutcome::Empty => {
                self.status = "no frames to export".to_string();
                self.last_export_status = Some("no frames".to_string());
            },
            ExportOutcome::Saved { count, label } => {
                let head = "exported ".to_string().concat(decimal_string(*count as u64).as_str());
                self.last_export_status = Some(head.clone().concat(" frames"));
                self.status = head.concat(" frames to ").concat(label.as_str());
            },
            ExportOutcome::Failed { reason } => {
                self.status = "export failed: ".to_string().concat(reason.as_str());
                self.last_export_status = Some("export failed".to_string());
            },
        }
        assert(self@ =~= export_noted(old(self)@, *outcome));
    }

    /// Prepare for the images of a newly selected downlink: drop what is known of
    /// the images so far, and build the reassembler that the downlink asks for. SSTV
    /// needs none. A downlink without images shows the frame table.
    pub fn refresh_image(&mut self, image: &Option<ImageDef>) -> (reassembler: Option<Reassembler>)
        requires
            old(self).wf(),
        ensures
            final(self).wf(),
            final(self)@ == image_refreshed(old(self)@, *image),
            match (reassembler, *image) {
                (Some(r), Some(def)) => image_fault(def) is None && builds(def, r) && r.ready()
                    && r.image_count() == 0,
                (None, Some(def)) => image_fault(def) is Some,
                (None, None) => true,
                (Some(_), None) => false,
            },
    {
        self.image_dirty = false;
        self.image_payload_misses = 0;
        self.image_payload_hits = 0;
        self.image_payload_logged = false;
        self.latest_sstv = None;
        self.sstv_dirty = false;
        match image {
            None => {
                self.bottom_tab = BottomTab::Frames;
                assert(self@ =~= image_refreshed(old(self)@, *image));
                None
            },
            Some(def) => {
                if let ImageDef::Sstv {  } = def {
                    assert(self@ =~= image_refreshed(old(self)@, *image));
                    return None;
                }
                match build(def) {
                    Ok(r) => {
                        assert(self@ =~= image_refreshed(old(self)@, *image));
                        Some(r)
                    },
                    Err(e) => {
                        let text = "image reassembler init failed: ".to_string().concat(
                            e.as_str(),
                        );
                        self.push_diagnostic(DiagnosticLevel::Error, text);
                        assert(self@ =~= image_refreshed(old(self)@, *image));
                        None
                    },
                }
            },
        }
    }
}

impl Default for Receiver {
    fn default() -> (r: Self)
        ensures
            r.wf(),
            r@ == at_rest(),
    {
        Receiver::new()
    }
}

/// The first frame from position `from` on that has the selected number.
pub open spec fn first_with_index(
    frames: Seq<FrameRow>,
    selected: Option<usize>,
    from: int,
) -> Option<int>
    decreases frames.len() - from,
{
    if from >= frames.len() {
        None
    } else if selected == Some(frames[from].index) {
        Some(from)
    } else {
        first_with_index(frames, selected, from + 1)
    }
}

proof fn lemma_no_selection(frames: Seq<FrameRow>, from: int)
    requires
        from >= 0,
    ensures
        first_with_index(frames, None, from) is None,
    decreases frames.len() - from,
{
    if from < frames.len() {
        lemma_no_selection(frames, from + 1);
    }
}

/// The state with an empty table and fresh counters.
pub open spec fn cleared(m: ReceiverModel) -> ReceiverModel {
    ReceiverModel {
        frames: Seq::empty(),
        selected: None,
        dropped: 0,
        seen: 0,
        samples: 0,
        processed: 0,
        total: None,
        stats: None,
        ..m
    }
}

/// The number of entries of a weight.
pub open spec fn level_count(
    notes: Seq<(DiagnosticLevel, Seq<char>)>,
    level: DiagnosticLevel,
) -> nat
    decreases notes.len(),
{
    if notes.len() == 0 {
        0
    } else {
        level_count(notes.drop_last(), level) + if notes.last().0 == level {
            1nat
        } else {
            0
        }
    }
}

/// The contents of an optional text.
pub open spec fn words_in(text: Option<&str>) -> Option<Seq<char>> {
    match text {
        Some(t) => Some(t@),
        None => None,
    }
}

/// The state after the selection was noted.
pub open spec fn selection_noted(
    m: ReceiverModel,
    satellite: Option<Seq<char>>,
    downlink: Option<Seq<char>>,
) -> ReceiverModel {
    let with_satellite = match satellite {
        Some(name) => noted(m, DiagnosticLevel::Info, "selected satellite "@ + name),
        None => m,
    };
    match downlink {
        Some(name) => noted(with_satellite, DiagnosticLevel::Info, "selected downlink "@ + name),
        None => with_satellite,
    }
}

/// The state after satellite definitions were loaded.
pub open spec fn loaded(
    m: ReceiverModel,
    count: usize,
    satellite: Option<Seq<char>>,
    downlink: Option<Seq<char>>,
) -> ReceiverModel {
    let counted = announced(
        m,
        DiagnosticLevel::Info,
        "loaded "@ + decimal(count as nat) + " satellite definitions"@,
    );
    let chosen = noted(
        selection_noted(counted, satellite, None),
        DiagnosticLevel::Info,
        "selected first supported downlink"@,
    );
    selection_noted(chosen, None, downlink)
}

/// A downlink as it is chosen for reception.
#[derive(Debug)]
pub struct DownlinkChoice {
    /// Name of the downlink.
    pub label: String,
    /// The downlink can be decoded.
    pub supported: bool,
}

/// Reception may begin.
pub open spec fn may_start(
    m: ReceiverModel,
    satellite_selected: bool,
    downlink: Option<DownlinkChoice>,
    input: InputMode,
    has_path: bool,
) -> bool {
    &&& !m.running
    &&& satellite_selected
    &&& downlink is Some
    &&& downlink->0.supported
    &&& input == InputMode::WavFile ==> has_path
}

/// The state after reception was asked to begin.
pub open spec fn started(
    m: ReceiverModel,
    satellite_selected: bool,
    downlink: Option<DownlinkChoice>,
    input: InputMode,
    has_path: bool,
) -> ReceiverModel {
    if m.running {
        m
    } else if !satellite_selected {
        ReceiverModel { status: "no satellite selected"@, ..m }
    } else {
        match downlink {
            None => ReceiverModel { status: "no downlink selected"@, ..m },
            Some(choice) => if !choice.supported {
                announced(
                    m,
                    DiagnosticLevel::Error,
                    "selected downlink is not supported: "@ + choice.label@,
                )
            } else if input == InputMode::WavFile && !has_path {
                announced(m, DiagnosticLevel::Warn, "no WAV file selected"@)
            } else {
                noted(
                    ReceiverModel {
                        running: true,
                        processed: 0,
                        total: None,
                        status: "RX started"@,
                        ..m
                    },
                    DiagnosticLevel::Info,
                    "started "@ + choice.label@ + " with "@ + input.words(),
                )
            },
        }
    }
}

/// How an export ended.
#[derive(Debug)]
pub enum ExportOutcome {
    /// There was nothing to export.
    Empty,
    /// The frames were written.
    Saved {
        /// Number of frames.
        count: usize,
        /// Short name of the file.
        label: String,
    },
    /// The file could not be written.
    Failed {
        /// What went wrong.
        reason: String,
    },
}

/// The state after an export.
pub open spec fn export_noted(m: ReceiverModel, outcome: ExportOutcome) -> ReceiverModel {
    match outcome {
        ExportOutcome::Empty => ReceiverModel {
            status: "no frames to export"@,
            export: Some("no frames"@),
            ..m
        },
        ExportOutcome::Saved { count, label } => ReceiverModel {
            status: "exported "@ + decimal(count as nat) + " frames to "@ + label@,
            export: Some("exported "@ + decimal(count as nat) + " frames"@),
            ..m
        },
        ExportOutcome::Failed { reason } => ReceiverModel {
            status: "export failed: "@ + reason@,
            export: Some("export failed"@),
            ..m
        },
    }
}

/// The state after another downlink was selected.
pub open spec fn image_refreshed(m: ReceiverModel, image: Option<ImageDef>) -> ReceiverModel {
    let fresh = ReceiverModel {
        dirty: false,
        misses: 0,
        hits: 0,
        logged: false,
        sstv: None,
        sstv_dirty: false,
        ..m
    };
    match image {
        None => ReceiverModel { tab: BottomTab::Frames, ..fresh },
        Some(ImageDef::Sstv {  }) => fresh,
        Some(def) => match image_fault(def) {
            None => fresh,
            Some(text) => noted(
                fresh,
                DiagnosticLevel::Error,
                "image reassembler init failed: "@ + text,
            ),
        },
    }
}

/// Hand a payload to the reassembler, where there is one that can still take
/// images. Returns whether it was taken; nothing where there is none.
pub fn offer_payload(reassembler: &mut Option<Reassembler>, bytes: &[u8]) -> (taken: Option<bool>)
    requires
        match *old(reassembler) {
            Some(r) => r.ready() && r.image_count() < u32::MAX,
            None => true,
        },
    ensures
        match (*old(reassembler), *final(reassembler)) {
            (Some(before), Some(after)) => after.ready() && exists|update: Option<PacketUpdate>|
                taken == Some(update is Some) && offered(before, after, bytes@, update),
            (None, None) => taken is None,
            _ => false,
        },
{
    let mut held: Option<Reassembler> = None;
    std::mem::swap(&mut held, reassembler);
    match held {
        Some(mut r) => {
            let ghost before = r;
            let update = r.ingest(bytes);
            assert(offered(before, r, bytes@, update));
            let taken = update.is_some();
            *reassembler = Some(r);
            Some(taken)
        },
        None => None,
    }
}

/// A payload leads the reassembler from one state to the next, with this update.
pub open spec fn offered(
    before: Reassembler,
    after: Reassembler,
    bytes: Seq<u8>,
    update: Option<PacketUpdate>,
) -> bool {
    match before {
        Reassembler::Geoscan(b) => after matches Reassembler::Geoscan(a) && (a@, update)
            == geoscan_step(b.layout(), b@, bytes) && a.layout() == b.layout(),
        Reassembler::Ssdv(b) => after matches Reassembler::Ssdv(a) && (a@, update) == ssdv_step(
            b.filter(),
            b@,
            bytes,
        ) && a.filter() == b.filter(),
    }
}

proof fn lemma_samples_grow(events: Seq<RxEvent>, n: int)
    requires
        0 <= n <= events.len(),
    ensures
        samples_in(events.take(n)) <= samples_in(events),
    decreases events.len() - n,
{
    if n < events.len() {
        lemma_samples_grow(events, n + 1);
        assert(events.take(n + 1).drop_last() =~= events.take(n));
    } else {
        assert(events.take(n) =~= events);
    }
}

/// The frames among some events, in order.
pub open spec fn frames_in(events: Seq<RxEvent>) -> Seq<FrameRow>
    decreases events.len(),
{
    if events.len() == 0 {
        Seq::empty()
    } else {
        match events.last() {
            RxEvent::Frame(row) => frames_in(events.drop_last()).push(row),
            _ => frames_in(events.drop_last()),
        }
    }
}

/// Whatever events come, the table holds the newest frames in the order in which they
/// arrived, up to its limit, and the counter counts them all.
pub proof fn law_table_holds_the_newest(m: ReceiverModel, events: Seq<RxEvent>)
    requires
        m.frames.len() <= MAX_FRAMES,
    ensures
        run(m, events).frames == latest(m.frames + frames_in(events), MAX_FRAMES as int),
        run(m, events).seen == m.seen + frames_in(events).len(),
    decreases events.len(),
{
    let limit = MAX_FRAMES as int;
    if events.len() == 0 {
        assert(m.frames + frames_in(events) =~= m.frames);
    } else {
        let before = events.drop_last();
        law_table_holds_the_newest(m, before);
        if let RxEvent::Frame(row) = events.last() {
            let all = m.frames + frames_in(before);
            assert(m.frames + frames_in(events) =~= all.push(row));
            assert(latest(latest(all, limit).push(row), limit) =~= latest(all.push(row), limit));
        }
    }
}

/// Once a frame is selected, no event selects another.
pub proof fn law_selection_stays(m: ReceiverModel, events: Seq<RxEvent>)
    requires
        m.selected is Some,
    ensures
        run(m, events).selected == m.selected,
    decreases events.len(),
{
    if events.len() > 0 {
        law_selection_stays(m, events.drop_last());
    }
}

/// However many payloads are not taken, at most one entry of the log is about them:
/// once one has been logged, payloads leave the log alone.
pub proof fn law_missed_payloads_are_logged_once(
    m: ReceiverModel,
    bytes: Vec<u8>,
    taken: Option<bool>,
)
    ensures
        taken == Some(false) ==> step(m, RxEvent::ImagePayload { bytes, taken }).logged,
        m.logged ==> step(m, RxEvent::ImagePayload { bytes, taken }).notes == m.notes,
        taken != Some(false) ==> step(m, RxEvent::ImagePayload { bytes, taken }).notes == m.notes,
{
}

/// The event log never holds more entries than its limit, and the newest entry is
/// always in it.
pub proof fn law_log_is_bounded(m: ReceiverModel, level: DiagnosticLevel, text: Seq<char>)
    ensures
        noted(m, level, text).notes.len() <= MAX_DIAGNOSTICS,
        noted(m, level, text).notes.last() == (level, text),
{
}

} // verus!
