//! How an input is chosen, worked off and aligned.
use vstd::prelude::*;
use crate::receiver::InputMode;
use crate::session::{
    action_in, align_after, align_check, align_view, alignment_use, by_contents, carrier_source,
    found_words, input_plan, loop_after, loop_run, path_of, reports_view, AlignAction, AlignCheck,
    AlignEvent, AlignJob, AlignModel, AlignPhase, AlignmentKey, AlignmentUse, AudioMode,
    CarrierSource, DecodeLoop, InputKind, InputPath, InputPlan, LoopAction, LoopEvent, LoopPhase,
    LoopReport, ReadOutcome, ReportModel,
};
use crate::text::decimal;

verus! {

/// A recording needs a path, and every input but SSTV a downlink that can be received.
/// Otherwise there is a plan.
pub proof fn law_when_there_is_a_plan(
    sstv: bool,
    input: InputMode,
    has_path: bool,
    kind: Option<InputKind>,
    mode: AudioMode,
)
    ensures
        input_plan(sstv, input, has_path, kind, mode) is Ok <==> {
            &&& input == InputMode::WavFile ==> has_path
            &&& !sstv ==> kind is Some || (input == InputMode::Soundcard && (mode == AudioMode::Fm
                || mode == AudioMode::Iq))
        },
{
}

/// The plan is made for what the downlink needs. On a sound card the user's word goes
/// first; of a recording it says how complex samples come, and without it they are looked
/// for.
pub proof fn law_plans(
    sstv: bool,
    input: InputMode,
    has_path: bool,
    kind: Option<InputKind>,
    mode: AudioMode,
)
    requires
        input_plan(sstv, input, has_path, kind, mode) is Ok,
    ensures
        ({
            let plan = input_plan(sstv, input, has_path, kind, mode)->Ok_0;
            let card = !sstv && input == InputMode::Soundcard;
            let file = !sstv && input == InputMode::WavFile;
            &&& plan == InputPlan::Sstv <==> sstv
            &&& card && mode == AudioMode::Iq ==> plan == InputPlan::SoundcardIq
            &&& card && mode == AudioMode::Fm ==> plan == (InputPlan::SoundcardAudio { fm: true })
            &&& card && (mode == AudioMode::Auto || mode == AudioMode::Ssb) ==> plan == match kind {
                Some(InputKind::Iq) => InputPlan::SoundcardIq,
                Some(InputKind::FmAudio) => InputPlan::SoundcardAudio { fm: true },
                _ => InputPlan::SoundcardAudio { fm: false },
            }
            &&& file && kind == Some(InputKind::Audio) ==> plan == (InputPlan::FileAudio {
                fm: false,
            })
            &&& file && kind == Some(InputKind::FmAudio) ==> plan == (InputPlan::FileAudio {
                fm: true,
            })
            &&& file && kind == Some(InputKind::Iq) ==> plan == match mode {
                AudioMode::Auto => InputPlan::FileDetect,
                AudioMode::Iq => InputPlan::FileIq,
                AudioMode::Fm => InputPlan::FileFm,
                AudioMode::Ssb => InputPlan::FileSsb,
            }
        }),
{
}

/// Audio is decoded as audio, and complex samples as such, or by the soft AO-40 decoder;
/// single-sideband audio is turned into complex samples.
pub proof fn law_paths(plan: InputPlan, soft_ao40: bool)
    ensures
        path_of(plan, soft_ao40) == InputPath::Sstv <==> plan is Sstv,
        path_of(plan, soft_ao40) == InputPath::Audio <==> (plan is SoundcardAudio || plan is FileAudio
            || plan is FileFm),
        plan is FileSsb ==> path_of(plan, soft_ao40) == InputPath::Iq,
        plan is SoundcardIq || plan is FileIq || plan is FileDetect ==> (path_of(plan, soft_ao40)
            == InputPath::SoftAo40 <==> soft_ao40) && (path_of(plan, soft_ao40) == InputPath::Iq
            <==> !soft_ao40),
{
}

/// The carrier of single-sideband audio is the user's, or estimated from one second where
/// the rate leaves a band to search. The soft AO-40 decoder does not take such audio.
pub proof fn law_carriers(soft_ao40: bool, user_carrier: bool, sample_rate: u32)
    ensures
        carrier_source(soft_ao40, user_carrier, sample_rate) is Ok <==> !soft_ao40 && (user_carrier
            || sample_rate > 800),
        !soft_ao40 && user_carrier ==> carrier_source(soft_ao40, user_carrier, sample_rate) == Ok::<
            CarrierSource,
            Seq<char>,
        >(CarrierSource::User),
        !soft_ao40 && !user_carrier && sample_rate > 800 ==> (carrier_source(
            soft_ao40,
            user_carrier,
            sample_rate,
        ) matches Ok(CarrierSource::Estimate { prefix_len }) && prefix_len == sample_rate),
{
}

/// The event is an answer to the action.
pub open spec fn answers(action: LoopAction, event: LoopEvent) -> bool {
    match action {
        LoopAction::Build => event is Built || event is BuildFailed,
        LoopAction::CheckStop => event is StopSwitch,
        LoopAction::Read => event is Read,
        LoopAction::Work { .. } => event is Worked,
        LoopAction::Pace { .. } => event is Paced,
        LoopAction::Finish => event is Finished,
        LoopAction::End => false,
    }
}

/// Only an answer to the action that the worker was told to do moves the loop on, and it
/// always does, but for an empty read, which leads back to the stop switch.
pub proof fn law_answers_move_the_loop(l: DecodeLoop, event: LoopEvent)
    ensures
        answers(action_in(l.phase), event) <==> loop_after(l, event).0.phase != l.phase,
        !answers(action_in(l.phase), event) ==> loop_after(l, event).0 == l && loop_after(
            l,
            event,
        ).1.len() == 0,
        loop_after(l, event).0.realtime == l.realtime,
        !(event is Built) ==> loop_after(l, event).0.path == l.path && loop_after(l, event).0.total
            == l.total,
{
}

/// A turn of the loop: whatever is read is decoded whole, with at most 4096 of its samples
/// in the spectrum, and reported with the progress made; then comes the stop switch again,
/// for paced recordings after the clock.
pub proof fn law_turn_of_the_loop(l: DecodeLoop, n: usize, processed: u64)
    requires
        l.phase == LoopPhase::Polling,
        l.pending == 0,
        n > 0,
    ensures
        ({
            let read = loop_after(l, LoopEvent::StopSwitch(false));
            let work = loop_after(read.0, LoopEvent::Read(ReadOutcome::Samples(n)));
            let done = loop_after(work.0, LoopEvent::Worked { processed });
            let taken = if l.path != InputPath::Sstv {
                processed as int
            } else if l.analyzed + n < u64::MAX {
                l.analyzed + n
            } else {
                u64::MAX as int
            };
            &&& action_in(read.0.phase) == LoopAction::Read
            &&& read.1.len() == 0
            &&& action_in(work.0.phase) matches LoopAction::Work { count, spectrum }
            &&& count == n
            &&& spectrum == if n < 4096 {
                n as int
            } else {
                4096
            }
            &&& work.1.len() == 0
            &&& done.1.last() matches ReportModel::Progress { processed: reported, total }
            &&& reported == taken
            &&& total == l.total
            &&& l.path == InputPath::Audio || l.path == InputPath::Iq ==> done.1.len() == 2
                && done.1[0] == ReportModel::Stats
            &&& l.path == InputPath::Sstv || l.path == InputPath::SoftAo40 ==> done.1.len() == 1
            &&& !l.realtime ==> action_in(done.0.phase) == LoopAction::CheckStop
            &&& l.realtime ==> (action_in(done.0.phase) matches LoopAction::Pace {
                processed: waited,
            } && waited == taken)
            &&& done.0.pending == 0
            &&& loop_after(done.0, LoopEvent::Paced(true)).0.phase == LoopPhase::Polling
        }),
{
}

/// How the loop ends: with the stream, after draining the SSTV analyzer if it is one, with
/// a failure, which is reported with its reason, or with the stop switch.
pub proof fn law_ends_of_the_loop(l: DecodeLoop, reason: String)
    ensures
        l.phase == LoopPhase::Reading ==> {
            let ended = loop_after(l, LoopEvent::Read(ReadOutcome::EndOfStream));
            let failed = loop_after(l, LoopEvent::Read(ReadOutcome::Failed(reason)));
            &&& l.path == InputPath::Sstv ==> action_in(ended.0.phase) == LoopAction::Finish
                && ended.1.len() == 0
            &&& l.path != InputPath::Sstv ==> action_in(ended.0.phase) == LoopAction::End
                && ended.1 == seq![ReportModel::Stopped]
            &&& action_in(failed.0.phase) == LoopAction::End
            &&& failed.1.len() == 2
            &&& failed.1[0] matches ReportModel::Dropped(text)
            &&& text.len() >= reason@.len()
            &&& text.skip(text.len() - reason@.len()) == reason@
            &&& failed.1[1] == ReportModel::Stopped
        },
        l.phase == LoopPhase::Building ==> {
            let failed = loop_after(l, LoopEvent::BuildFailed(reason));
            &&& action_in(failed.0.phase) == LoopAction::End
            &&& failed.1 == seq![ReportModel::Dropped(reason@), ReportModel::Stopped]
        },
        l.phase == LoopPhase::Finishing ==> action_in(
            loop_after(l, LoopEvent::Finished).0.phase,
        ) == LoopAction::End,
        l.phase matches LoopPhase::Pacing { .. } ==> action_in(
            loop_after(l, LoopEvent::Paced(false)).0.phase,
        ) == LoopAction::End,
{
    if l.phase == LoopPhase::Reading {
        let failed = loop_after(l, LoopEvent::Read(ReadOutcome::Failed(reason)));
        if let ReportModel::Dropped(text) = failed.1[0] {
            assert(text.skip(text.len() - reason@.len()) =~= reason@);
        }
    }
}

/// An opened input begins with what was read ahead, and says its name and its length.
pub proof fn law_input_is_opened(
    l: DecodeLoop,
    path: InputPath,
    pending: usize,
    total: Option<u64>,
)
    requires
        l.phase == LoopPhase::Building,
    ensures
        ({
            let next = loop_after(l, LoopEvent::Built { path, pending, total });
            &&& action_in(next.0.phase) == LoopAction::CheckStop
            &&& next.0.path == path
            &&& next.0.pending == pending
            &&& next.0.total == total
            &&& next.0.analyzed == l.analyzed
            &&& next.1 == seq![
                ReportModel::Source,
                ReportModel::Progress { processed: 0, total },
            ]
        }),
{
}

/// The samples that the loop was told to decode and did.
pub open spec fn worked_off(l: DecodeLoop, events: Seq<LoopEvent>) -> nat
    decreases events.len(),
{
    if events.len() == 0 {
        0
    } else {
        worked_off(l, events.drop_last()) + match (
            loop_run(l, events.drop_last()).phase,
            events.last(),
        ) {
            (LoopPhase::Working { count }, LoopEvent::Worked { .. }) => count as nat,
            _ => 0,
        }
    }
}

/// The progress of an SSTV input is the number of samples that were decoded.
pub proof fn law_sstv_progress_adds_up(l: DecodeLoop, events: Seq<LoopEvent>)
    requires
        l.path == InputPath::Sstv,
        l.phase != LoopPhase::Building,
        l.analyzed + worked_off(l, events) <= u64::MAX,
    ensures
        loop_run(l, events).analyzed == l.analyzed + worked_off(l, events),
        loop_run(l, events).path == InputPath::Sstv,
        loop_run(l, events).phase != LoopPhase::Building,
    decreases events.len(),
{
    if events.len() > 0 {
        law_sstv_progress_adds_up(l, events.drop_last());
    }
}

/// A known alignment is used for the same recording at the same rate and with the same
/// downlink, and for no other. Its samples are read past, if there are any.
pub proof fn law_known_alignment(
    key: AlignmentKey,
    prefix_empty: bool,
    sample_skip: usize,
    sample_rate: u32,
    downlink_id: Seq<char>,
)
    ensures
        alignment_use(None, sample_rate, downlink_id) == AlignmentUse::Search,
        ({
            let used = alignment_use(
                Some((key, prefix_empty, sample_skip)),
                sample_rate,
                downlink_id,
            );
            &&& used != AlignmentUse::Search <==> key.same_path && key.sample_rate == sample_rate
                && key.downlink_id@ == downlink_id
            &&& used == AlignmentUse::Cached ==> prefix_empty && sample_skip == 0
            &&& used == AlignmentUse::CachedPastPrefix ==> !prefix_empty || sample_skip > 0
        }),
{
}

/// Only recordings of complex samples are aligned, and if the user leaves open what they
/// are, only after a look at them.
pub proof fn law_what_is_aligned(
    has_path: bool,
    input: InputMode,
    kind: Option<InputKind>,
    mode: AudioMode,
)
    ensures
        ({
            let check = align_check(has_path, input, kind, mode);
            let recording = has_path && input == InputMode::WavFile && kind == Some(InputKind::Iq);
            &&& check == AlignCheck::Align <==> recording && mode == AudioMode::Iq
            &&& check == AlignCheck::AlignIfIq <==> recording && mode == AudioMode::Auto
        }),
{
}

/// The course of an alignment with candidates: the first eight seconds are read, the
/// candidates are tried on as many of them as they need, and once more on all where no
/// frame came of those. The best one is kept from where it begins, within what was read.
pub proof fn law_course_of_an_alignment(
    start: AlignJob,
    sample_rate: u32,
    len: usize,
    scorer_len: usize,
    first: Option<(usize, usize)>,
    second: Option<(usize, usize)>,
)
    requires
        start.phase == AlignPhase::Opening,
        8 * sample_rate <= usize::MAX,
    ensures
        ({
            let opened = align_after(start, AlignEvent::Opened { sample_rate, linear: true });
            let prefix = align_after(opened.0, AlignEvent::Prefix { len, scorer_len });
            let scored = align_after(prefix.0, AlignEvent::Scored(first));
            let again = align_after(scored.0, AlignEvent::Scored(second));
            &&& opened.1 matches AlignModel::ReadPrefix { len: wanted }
            &&& wanted == 8 * sample_rate
            &&& prefix.1 matches AlignModel::Score { len: tried, again: false }
            &&& tried <= len && tried <= scorer_len && (tried == len || tried == scorer_len)
            &&& match first {
                None => scored.1 is Failed,
                Some((skip, frames)) => if frames == 0 && scorer_len < len {
                    &&& scored.1 == (AlignModel::Score { len, again: true })
                    &&& match second {
                        None => again.1 is Failed,
                        Some((skip2, frames2)) => keeps(again.1, skip2, frames2, len),
                    }
                    &&& again.0.phase == AlignPhase::Done
                } else {
                    keeps(scored.1, skip, frames, len) && scored.0.phase == AlignPhase::Done
                },
            }
        }),
{
}

/// The alignment keeps the samples from `skip` on, or none where it lies beyond them.
pub open spec fn keeps(action: AlignModel, skip: usize, frames: usize, len: usize) -> bool {
    action matches AlignModel::Ready { from, frames: found } && found == frames && from <= len
        && from <= skip && (from == len || from == skip)
}

/// Without candidates the carrier is estimated and all samples are kept; an input that
/// cannot be opened or read ends the alignment with the reason.
pub proof fn law_other_ends_of_an_alignment(
    start: AlignJob,
    sample_rate: u32,
    len: usize,
    scorer_len: usize,
    reason: String,
)
    requires
        start.phase == AlignPhase::Opening,
    ensures
        ({
            let opened = align_after(start, AlignEvent::Opened { sample_rate, linear: false });
            let prefix = align_after(opened.0, AlignEvent::Prefix { len, scorer_len });
            let done = align_after(prefix.0, AlignEvent::Estimated);
            &&& prefix.1 is Estimate
            &&& done.1 == (AlignModel::Ready { from: 0, frames: 0 })
            &&& done.0.phase == AlignPhase::Done
            &&& align_after(opened.0, AlignEvent::PrefixFailed(reason)).1 == AlignModel::Failed(
                reason@,
            )
            &&& align_after(start, AlignEvent::OpenFailed(reason)).1 is Failed
            &&& align_after(start, AlignEvent::OpenFailed(reason)).0.phase == AlignPhase::Done
        }),
{
}

/// Reports say what the loop reports, one for one.
pub proof fn law_reports_are_passed_on(reports: Seq<LoopReport>, i: int)
    requires
        0 <= i < reports.len(),
    ensures
        reports_view(reports).len() == reports.len(),
        reports[i] is Source <==> reports_view(reports)[i] == ReportModel::Source,
        reports[i] is Stats <==> reports_view(reports)[i] == ReportModel::Stats,
        reports[i] is Stopped <==> reports_view(reports)[i] == ReportModel::Stopped,
        reports[i] matches LoopReport::Progress { processed, total } ==> reports_view(reports)[i]
            == (ReportModel::Progress { processed, total }),
        reports[i] matches LoopReport::Dropped(text) ==> reports_view(reports)[i]
            == ReportModel::Dropped(text@),
{
}

/// So do the actions of an alignment.
pub proof fn law_actions_are_passed_on(action: AlignAction)
    ensures
        action is Open <==> align_view(action) is Open,
        action is Estimate <==> align_view(action) is Estimate,
        action is Wait <==> align_view(action) is Wait,
        action matches AlignAction::ReadPrefix { len } ==> align_view(action)
            == (AlignModel::ReadPrefix { len }),
        action matches AlignAction::Score { len, again } ==> align_view(action)
            == (AlignModel::Score { len, again }),
        action matches AlignAction::Ready { from, frames } ==> align_view(action)
            == (AlignModel::Ready { from, frames }),
        action matches AlignAction::Failed(text) ==> align_view(action) == AlignModel::Failed(
            text@,
        ),
{
}

/// A result is what it is by its contents.
pub proof fn law_results_by_contents<T>(res: Result<T, String>)
    ensures
        res matches Ok(v) ==> by_contents(res) == Ok::<T, Seq<char>>(v),
        res matches Err(e) ==> by_contents(res) == Err::<T, Seq<char>>(e@),
{
}

/// A found alignment is named with its tuning, its skip and its frames, and said to be an
/// earlier one if it is.
pub proof fn law_found_alignment_is_named(
    cached: bool,
    tuning: Seq<char>,
    sample_skip: usize,
    frames: usize,
)
    ensures
        ({
            let rest = tuning + " Hz skip="@ + decimal(sample_skip as nat) + " prefix_frames="@
                + decimal(frames as nat);
            &&& cached ==> found_words(cached, tuning, sample_skip, frames)
                == "IQ alignment (cached): tuning="@ + rest
            &&& !cached ==> found_words(cached, tuning, sample_skip, frames)
                == "IQ alignment: tuning="@ + rest
        }),
{
    let rest = tuning + " Hz skip="@ + decimal(sample_skip as nat) + " prefix_frames="@ + decimal(
        frames as nat,
    );
    let words = found_words(cached, tuning, sample_skip, frames);
    if cached {
        assert(words =~= "IQ alignment (cached): tuning="@ + rest);
    } else {
        assert(words =~= "IQ alignment: tuning="@ + rest);
    }
}

} // verus!
