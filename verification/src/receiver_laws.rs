//! What the window shows after any sequence of events.
use vstd::prelude::*;
use crate::image::{geoscan_step, image_fault, ssdv_step, PacketUpdate, Reassembler};
use crate::receiver::{
    at_rest, cleared, export_noted, first_with_index, image_refreshed, last_samples, latest,
    level_count, loaded, may_start, noted, notes_of, offered, run, samples_in, selection_noted,
    started, step, words_in, AlignmentState, BottomTab, DiagnosticEntry, DiagnosticLevel,
    DownlinkChoice, ExportOutcome, InputMode, ReceiverModel, RxEvent,
};
use crate::rows::{hex_pairs, FrameRow};
use crate::satellite::ImageDef;
use crate::sstv::SstvMode;
use crate::text::decimal;

verus! {

/// How many of the events are of a kind.
pub open spec fn number_of(events: Seq<RxEvent>, kind: spec_fn(RxEvent) -> bool) -> nat
    decreases events.len(),
{
    if events.len() == 0 {
        0
    } else {
        number_of(events.drop_last(), kind) + if kind(events.last()) {
            1nat
        } else {
            0
        }
    }
}

/// The smaller of two numbers.
pub open spec fn at_most(n: nat, limit: nat) -> nat {
    if n < limit {
        n
    } else {
        limit
    }
}

/// The window counts the frames, the lost frames, and the payloads that were taken for an
/// image or not, these up to the largest count that fits.
pub proof fn law_events_are_counted(m: ReceiverModel, events: Seq<RxEvent>)
    requires
        m.hits <= u32::MAX,
        m.misses <= u32::MAX,
    ensures
        ({
            let r = run(m, events);
            &&& r.seen == m.seen + number_of(events, |e: RxEvent| e is Frame)
            &&& r.dropped == m.dropped + number_of(events, |e: RxEvent| e is Dropped)
            &&& r.hits == at_most(
                m.hits + number_of(
                    events,
                    |e: RxEvent| e is ImagePayload && e->taken == Some(true),
                ),
                u32::MAX as nat,
            )
            &&& r.misses == at_most(
                m.misses + number_of(
                    events,
                    |e: RxEvent| e is ImagePayload && e->taken == Some(false),
                ),
                u32::MAX as nat,
            )
            &&& r.running == (m.running && number_of(events, |e: RxEvent| e is Stopped) == 0)
            &&& r.dirty == (m.dirty || number_of(
                events,
                |e: RxEvent| e is ImagePayload && e->taken == Some(true),
            ) > 0)
            &&& r.sstv_dirty == (m.sstv_dirty || number_of(events, |e: RxEvent| e is Sstv) > 0)
            &&& r.samples == m.samples
            &&& r.export == m.export
        }),
    decreases events.len(),
{
    if events.len() > 0 {
        law_events_are_counted(m, events.drop_last());
    }
}

/// Two events are about the same thing.
pub open spec fn about_the_same(a: RxEvent, b: RxEvent) -> bool {
    ||| a is Progress && b is Progress
    ||| a is SourceInfo && b is SourceInfo
    ||| a is Stats && b is Stats
    ||| a is Sstv && b is Sstv
    ||| is_alignment(a) && is_alignment(b)
}

/// The event is about the alignment.
pub open spec fn is_alignment(e: RxEvent) -> bool {
    e is AlignmentStarted || e is AlignmentProgress || e is AlignmentReady || e is AlignmentFailed
}

/// The last event about a thing says how it stands.
pub proof fn law_last_word_counts(m: ReceiverModel, events: Seq<RxEvent>, k: int)
    requires
        0 <= k < events.len(),
        forall|j: int| k < j < events.len() ==> !about_the_same(#[trigger] events[j], events[k]),
    ensures
        ({
            let r = run(m, events);
            match events[k] {
                RxEvent::Progress { processed, total } => r.processed == processed && r.total
                    == total,
                RxEvent::SourceInfo { label, sample_rate } => r.source == label@ && r.rate
                    == sample_rate,
                RxEvent::Stats(stats) => r.stats == Some(stats),
                RxEvent::Sstv(image) => r.sstv == Some(image) && r.tab == BottomTab::Image,
                RxEvent::AlignmentStarted { total } => r.alignment == (AlignmentState::Aligning {
                    current: 0,
                    total,
                }),
                RxEvent::AlignmentReady { .. } => r.alignment == AlignmentState::Ready,
                RxEvent::AlignmentFailed(_) => r.alignment == AlignmentState::Failed,
                RxEvent::AlignmentProgress { current } => match run(m, events.take(k)).alignment {
                    AlignmentState::Aligning { current: _, total } => r.alignment == (
                    AlignmentState::Aligning { current, total }),
                    other => r.alignment == other,
                },
                _ => true,
            }
        }),
    decreases events.len(),
{
    let before = events.drop_last();
    if k < events.len() - 1 {
        assert forall|j: int| k < j < before.len() implies !about_the_same(
            #[trigger] before[j],
            before[k],
        ) by {
            assert(before[j] == events[j]);
        }
        law_last_word_counts(m, before, k);
        assert(before.take(k) =~= events.take(k));
        assert(!about_the_same(events[events.len() - 1], events[k]));
    } else {
        assert(before =~= events.take(k));
    }
}

/// What no event is about stays as it was.
pub proof fn law_the_rest_stays(m: ReceiverModel, events: Seq<RxEvent>)
    ensures
        ({
            let r = run(m, events);
            &&& number_of(events, |e: RxEvent| e is Progress) == 0 ==> r.processed == m.processed
                && r.total == m.total
            &&& number_of(events, |e: RxEvent| e is SourceInfo) == 0 ==> r.source == m.source
                && r.rate == m.rate
            &&& number_of(events, |e: RxEvent| e is Stats) == 0 ==> r.stats == m.stats
            &&& number_of(events, |e: RxEvent| e is Sstv) == 0 ==> r.sstv == m.sstv && r.tab
                == m.tab
            &&& number_of(events, |e: RxEvent| is_alignment(e)) == 0 ==> r.alignment == m.alignment
            &&& number_of(events, |e: RxEvent| e is Frame) == 0 ==> r.frames == m.frames
                && r.selected == m.selected
        }),
    decreases events.len(),
{
    if events.len() > 0 {
        law_the_rest_stays(m, events.drop_last());
    }
}

/// Where nothing is selected, the first frame that comes is.
pub proof fn law_first_frame_is_selected(m: ReceiverModel, events: Seq<RxEvent>, k: int)
    requires
        m.selected is None,
        0 <= k < events.len(),
        events[k] is Frame,
        forall|j: int| 0 <= j < k ==> !(#[trigger] events[j] is Frame),
    ensures
        run(m, events).selected == Some(events[k]->Frame_0.index),
    decreases events.len(),
{
    let before = events.drop_last();
    if k < events.len() - 1 {
        assert forall|j: int| 0 <= j < k implies !(#[trigger] before[j] is Frame) by {
            assert(before[j] == events[j]);
        }
        law_first_frame_is_selected(m, before, k);
    } else {
        assert forall|j: int| 0 <= j < before.len() implies !(#[trigger] before[j] is Frame) by {
            assert(before[j] == events[j]);
        }
        lemma_none(before);
        law_the_rest_stays(m, before);
    }
}

proof fn lemma_none(events: Seq<RxEvent>)
    requires
        forall|j: int| 0 <= j < events.len() ==> !(#[trigger] events[j] is Frame),
    ensures
        number_of(events, |e: RxEvent| e is Frame) == 0,
    decreases events.len(),
{
    if events.len() > 0 {
        let before = events.drop_last();
        assert forall|j: int| 0 <= j < before.len() implies !(#[trigger] before[j] is Frame) by {
            assert(before[j] == events[j]);
        }
        lemma_none(before);
    }
}

/// The newest entries of a list, as many as fit.
pub proof fn law_newest_are_kept<T>(s: Seq<T>, n: int)
    requires
        n >= 0,
    ensures
        latest(s, n).len() == if s.len() < n {
            s.len() as int
        } else {
            n
        },
        forall|i: int|
            0 <= i < latest(s, n).len() ==> #[trigger] latest(s, n)[i] == s[s.len() - latest(
                s,
                n,
            ).len() + i],
{
}

/// The table holds at most 512 frames and the log at most 24 entries, the newest ones.
pub proof fn law_limits(m: ReceiverModel, row: FrameRow, level: DiagnosticLevel, text: Seq<char>)
    requires
        m.frames.len() <= 512,
        m.notes.len() <= 24,
    ensures
        ({
            let rows = step(m, RxEvent::Frame(row)).frames;
            &&& m.frames.len() < 512 ==> rows == m.frames.push(row)
            &&& m.frames.len() == 512 ==> rows == m.frames.drop_first().push(row)
        }),
        ({
            let notes = noted(m, level, text).notes;
            &&& m.notes.len() < 24 ==> notes == m.notes.push((level, text))
            &&& m.notes.len() == 24 ==> notes == m.notes.drop_first().push((level, text))
        }),
{
    if m.frames.len() == 512 {
        assert(step(m, RxEvent::Frame(row)).frames =~= m.frames.drop_first().push(row));
    }
    if m.notes.len() == 24 {
        assert(noted(m, level, text).notes =~= m.notes.drop_first().push((level, text)));
    }
}

/// What an event adds to the log: its weight and words.
pub open spec fn entry(event: RxEvent, first_miss: bool) -> Option<(DiagnosticLevel, Seq<char>)> {
    match event {
        RxEvent::Dropped(reason) => Some((DiagnosticLevel::Warn, reason@)),
        RxEvent::SourceInfo { label, .. } => Some((DiagnosticLevel::Info, label@)),
        RxEvent::Stopped => Some((DiagnosticLevel::Info, "RX stopped"@)),
        RxEvent::AlignmentStarted { total } => Some(
            (
                DiagnosticLevel::Info,
                "aligning IQ ("@ + decimal(total as nat) + " candidates)"@,
            ),
        ),
        RxEvent::AlignmentReady { tuning, sample_skip, frames } => Some(
            (
                DiagnosticLevel::Info,
                "IQ alignment ready: tuning="@ + tuning@ + " Hz skip="@ + decimal(
                    sample_skip as nat,
                ) + " prefix_frames="@ + decimal(frames as nat),
            ),
        ),
        RxEvent::AlignmentFailed(reason) => Some(
            (DiagnosticLevel::Error, "IQ alignment failed: "@ + reason@),
        ),
        RxEvent::ImagePayload { bytes, taken } => if taken == Some(false) && first_miss {
            let head = if bytes@.len() < 16 {
                bytes@
            } else {
                bytes@.take(16)
            };
            Some(
                (
                    DiagnosticLevel::Info,
                    "image: payload did not match header signature; len="@ + decimal(bytes@.len())
                        + " prefix=["@ + hex_pairs(head) + "]"@,
                ),
            )
        } else {
            None
        },
        RxEvent::Sstv(image) => {
            let name = match image.mode {
                SstvMode::Robot36 => "Robot36"@,
                SstvMode::Pd120 => "Pd120"@,
            };
            Some(
                (
                    DiagnosticLevel::Info,
                    "SSTV: decoded "@ + name + " image ("@ + decimal(image.width as nat) + "x"@
                        + decimal(image.height as nat) + ")"@,
                ),
            )
        },
        _ => None,
    }
}

/// Events that go wrong are logged as warnings or errors and the others for information,
/// each once; frames, samples, progress and statistics leave the log alone. Most entries
/// are the status line too.
pub proof fn law_events_are_logged(m: ReceiverModel, event: RxEvent)
    ensures
        ({
            let r = step(m, event);
            match entry(event, !m.logged) {
                Some(e) => {
                    &&& r.notes == latest(m.notes.push(e), 24)
                    &&& if event is ImagePayload || event is Sstv {
                        r.status == m.status
                    } else {
                        r.status == e.1
                    }
                },
                None => {
                    &&& r.notes == m.notes
                    &&& event is Progress || r.status == m.status
                },
            }
        }),
        event matches RxEvent::Progress { processed, total } ==> {
            &&& total is None ==> step(m, event).status == "progress "@ + decimal(processed as nat)
            &&& total matches Some(t) ==> step(m, event).status == "progress "@ + decimal(
                processed as nat,
            ) + " / "@ + decimal(t as nat)
        },
{
    if let RxEvent::ImagePayload { bytes, taken } = event {
        assert(bytes@.len() == 16 ==> bytes@.take(16) =~= bytes@);
    }
}

/// The log counts its entries by weight, and each has one of the three.
pub proof fn law_entries_by_weight(notes: Seq<(DiagnosticLevel, Seq<char>)>)
    ensures
        level_count(notes, DiagnosticLevel::Info) + level_count(notes, DiagnosticLevel::Warn)
            + level_count(notes, DiagnosticLevel::Error) == notes.len(),
    decreases notes.len(),
{
    if notes.len() > 0 {
        law_entries_by_weight(notes.drop_last());
    }
}

/// Reception begins only with a satellite, a supported downlink and an input, and not
/// twice. If it does not, the state says why, and reception is off as before.
pub proof fn law_reception_begins(
    m: ReceiverModel,
    satellite_selected: bool,
    downlink: Option<DownlinkChoice>,
    input: InputMode,
    has_path: bool,
)
    ensures
        ({
            let r = started(m, satellite_selected, downlink, input, has_path);
            let ready = satellite_selected && downlink is Some && downlink->0.supported && (input
                == InputMode::Soundcard || has_path);
            &&& m.running ==> r == m
            &&& !m.running ==> (r.running <==> ready)
            &&& !m.running ==> (may_start(m, satellite_selected, downlink, input, has_path)
                <==> ready)
            &&& m.running ==> !may_start(m, satellite_selected, downlink, input, has_path)
            &&& r.running && !m.running ==> r.processed == 0 && r.total is None
            &&& !r.running ==> r.processed == m.processed && r.total == m.total
            &&& r.frames == m.frames && r.selected == m.selected && r.seen == m.seen
        }),
{
}

/// Clearing empties the table and the counters and leaves the rest as it is.
pub proof fn law_clearing(m: ReceiverModel)
    ensures
        ({
            let r = cleared(m);
            &&& r.frames.len() == 0 && r.selected is None && r.stats is None && r.total is None
            &&& r.dropped == 0 && r.seen == 0 && r.samples == 0 && r.processed == 0
            &&& r.running == m.running && r.status == m.status && r.notes == m.notes
            &&& r.hits == m.hits && r.misses == m.misses && r.sstv == m.sstv && r.tab == m.tab
            &&& r.source == m.source && r.rate == m.rate && r.alignment == m.alignment
        }),
{
}

/// The selected frame is the first in the table with the selected number.
pub proof fn law_selected_frame(frames: Seq<FrameRow>, selected: Option<usize>, from: int)
    requires
        0 <= from,
    ensures
        match first_with_index(frames, selected, from) {
            Some(i) => from <= i < frames.len() && selected == Some(frames[i].index) && forall|
                j: int,
            |
                from <= j < i ==> selected != Some((#[trigger] frames[j]).index),
            None => forall|j: int|
                from <= j < frames.len() ==> selected != Some((#[trigger] frames[j]).index),
        },
    decreases frames.len() - from,
{
    if from < frames.len() && selected != Some(frames[from].index) {
        law_selected_frame(frames, selected, from + 1);
    }
}

/// Another downlink begins without images: nothing of the old ones is left, the image view
/// is left where there are none to come, and a definition that cannot be used is logged
/// as an error. The table stays.
pub proof fn law_other_downlink(m: ReceiverModel, image: Option<ImageDef>)
    ensures
        ({
            let r = image_refreshed(m, image);
            let unusable = image matches Some(def) && !(def is Sstv) && image_fault(def) is Some;
            &&& !r.dirty && !r.logged && !r.sstv_dirty
            &&& r.hits == 0 && r.misses == 0 && r.sstv is None
            &&& image is None ==> r.tab == BottomTab::Frames
            &&& image is Some ==> r.tab == m.tab
            &&& !unusable ==> r.notes == m.notes
            &&& unusable ==> r.notes.last().0 == DiagnosticLevel::Error
            &&& r.frames == m.frames && r.selected == m.selected && r.status == m.status
            &&& r.running == m.running && r.seen == m.seen && r.dropped == m.dropped
        }),
{
}

/// What was chosen is logged, the satellite before the downlink.
pub proof fn law_choice_is_logged(m: ReceiverModel, satellite: Seq<char>, downlink: Seq<char>)
    requires
        m.notes.len() <= 22,
    ensures
        selection_noted(m, None, None) == m,
        ({
            let notes = selection_noted(m, Some(satellite), Some(downlink)).notes;
            &&& notes.len() == m.notes.len() + 2
            &&& notes.take(m.notes.len() as int) == m.notes
            &&& notes[m.notes.len() as int].0 == DiagnosticLevel::Info
            &&& notes[m.notes.len() as int].1 == "selected satellite "@ + satellite
            &&& notes[m.notes.len() as int + 1].0 == DiagnosticLevel::Info
            &&& notes[m.notes.len() as int + 1].1 == "selected downlink "@ + downlink
        }),
{
    let notes = selection_noted(m, Some(satellite), Some(downlink)).notes;
    assert(notes.take(m.notes.len() as int) =~= m.notes);
}

/// Loading says how many definitions there are, and then what was chosen of them.
pub proof fn law_loading_is_logged(m: ReceiverModel, count: usize, name: Seq<char>, link: Seq<char>)
    requires
        m.notes.len() <= 20,
    ensures
        ({
            let r = loaded(m, count, Some(name), Some(link));
            let n = m.notes.len() as int;
            &&& r.status == "loaded "@ + decimal(count as nat) + " satellite definitions"@
            &&& r.notes.len() == n + 4
            &&& r.notes[n].1 == r.status
            &&& r.notes[n + 1].1 == "selected satellite "@ + name
            &&& r.notes[n + 3].1 == "selected downlink "@ + link
            &&& forall|i: int| n <= i < n + 4 ==> (#[trigger] r.notes[i]).0 == DiagnosticLevel::Info
            &&& r.frames == m.frames && r.running == m.running
        }),
        loaded(m, count, None, None).notes.len() == m.notes.len() + 2,
{
}

/// The window says how an export went, and counts the frames that were saved.
pub proof fn law_export_is_reported(m: ReceiverModel, outcome: ExportOutcome)
    ensures
        ({
            let r = export_noted(m, outcome);
            &&& r.export is Some
            &&& r.frames == m.frames && r.notes == m.notes && r.running == m.running
            &&& match outcome {
                ExportOutcome::Saved { count, label } => {
                    &&& r.status == "exported "@ + decimal(count as nat) + " frames to "@ + label@
                    &&& r.export == Some("exported "@ + decimal(count as nat) + " frames"@)
                },
                ExportOutcome::Failed { reason } => {
                    &&& r.status == "export failed: "@ + reason@
                    &&& r.export == Some("export failed"@)
                },
                ExportOutcome::Empty => {
                    &&& r.status == "no frames to export"@
                    &&& r.export == Some("no frames"@)
                },
            }
        }),
{
}

/// A payload goes to the reassembler of its downlink, which keeps its settings.
pub proof fn law_payload_is_offered(
    before: Reassembler,
    after: Reassembler,
    bytes: Seq<u8>,
    update: Option<PacketUpdate>,
)
    requires
        offered(before, after, bytes, update),
    ensures
        before matches Reassembler::Geoscan(b) ==> {
            &&& after matches Reassembler::Geoscan(a)
            &&& a@ == geoscan_step(b.layout(), b@, bytes).0
            &&& update == geoscan_step(b.layout(), b@, bytes).1
            &&& a.layout() == b.layout()
        },
        before matches Reassembler::Ssdv(b) ==> {
            &&& after matches Reassembler::Ssdv(a)
            &&& a@ == ssdv_step(b.filter(), b@, bytes).0
            &&& update == ssdv_step(b.filter(), b@, bytes).1
            &&& a.filter() == b.filter()
        },
{
}

/// The samples that an event carries.
pub open spec fn samples_of(e: RxEvent) -> nat {
    match e {
        RxEvent::Samples(n) => n as nat,
        _ => 0,
    }
}

/// The samples of events are added up, whatever comes between them, and the last event with
/// samples gives the next row of the waterfall.
pub proof fn law_samples_add_up(a: Seq<RxEvent>, e: RxEvent, b: Seq<RxEvent>)
    ensures
        samples_in(Seq::empty()) == 0,
        samples_in(a.push(e) + b) == samples_in(a) + samples_of(e) + samples_in(b),
        last_samples(a.push(e)) == if e is Samples {
            Some(a.len() as int)
        } else {
            last_samples(a)
        },
        last_samples(Seq::empty()) is None,
    decreases b.len(),
{
    assert(a.push(e).drop_last() =~= a);
    if b.len() == 0 {
        assert(a.push(e) + b =~= a.push(e));
    } else {
        law_samples_add_up(a, e, b.drop_last());
        assert((a.push(e) + b).drop_last() =~= a.push(e) + b.drop_last());
    }
}

/// A window at rest shows nothing and receives nothing; its input is the sound card.
pub proof fn law_window_at_rest()
    ensures
        ({
            let m = at_rest();
            &&& m.frames.len() == 0 && m.notes.len() == 0 && m.status.len() == 0
            &&& m.selected is None && m.total is None && m.stats is None && m.sstv is None
            &&& m.export is None
            &&& m.seen == 0 && m.dropped == 0 && m.samples == 0 && m.processed == 0
            &&& m.hits == 0 && m.misses == 0
            &&& !m.running && !m.logged && !m.dirty && !m.sstv_dirty
            &&& m.rate == 48000
            &&& m.alignment == AlignmentState::Idle && m.tab == BottomTab::Frames
            &&& m.source == "soundcard default"@
        }),
{
}

/// The log shows its entries as they are.
pub proof fn law_entries_by_contents(entries: Seq<DiagnosticEntry>, i: int, text: &str)
    requires
        0 <= i < entries.len(),
    ensures
        notes_of(entries).len() == entries.len(),
        notes_of(entries)[i].0 == entries[i].level,
        notes_of(entries)[i].1 == entries[i].text@,
        words_in(Some(text)) == Some(text@),
        words_in(None) is None,
{
}

} // verus!
