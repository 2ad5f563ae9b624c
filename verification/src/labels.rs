//! The words of the receiver window: the list of satellites, the names of downlinks,
//! the status bar and the panels.
use vstd::prelude::*;
use vstd::string::StringExecFns;
use crate::receiver::{DiagnosticEntry, DiagnosticLevel, InputMode, PipelineStats};
use crate::satellite::{DownlinkDef, ImageDef, SatelliteDefinition};
use crate::session::{AudioMode, InputKind};
use crate::text::{decimal, decimal_string};
use crate::words::{chars_of, contains, contains_chars, lower_chars, lowered, occurs, text_from};

verus! {

/// The name of a satellite with its first other name.
pub open spec fn sat_words(satellite: SatelliteDefinition) -> Seq<char> {
    let header = satellite.satellite;
    if header.aliases@.len() == 0 {
        header.name@
    } else {
        header.name@ + " ("@ + header.aliases@[0]@ + ")"@
    }
}

/// The name of a satellite with its first other name, where it has one.
pub fn sat_label(satellite: &SatelliteDefinition) -> (text: String)
    ensures
        text@ == sat_words(*satellite),
{
    let header = &satellite.satellite;
    if header.aliases.len() == 0 {
        header.name.clone()
    } else {
        header.name.clone().concat(" (").concat(header.aliases[0].as_str()).concat(")")
    }
}

/// A satellite passes the filter of the list: its name in lower case, or its number,
/// holds the filter in lower case.
pub open spec fn listed(satellite: SatelliteDefinition, filter: Seq<char>) -> bool {
    let wanted = lowered(filter);
    ||| wanted.len() == 0
    ||| occurs(lowered(satellite.satellite.name@), wanted)
    ||| occurs(decimal(satellite.satellite.norad_id as nat), wanted)
}

/// The positions of the first `n` satellites that pass, in order.
pub open spec fn listed_upto(satellites: Seq<SatelliteDefinition>, filter: Seq<char>, n: nat) -> Seq<
    usize,
>
    decreases n,
{
    if n == 0 {
        Seq::empty()
    } else if listed(satellites[n - 1], filter) {
        listed_upto(satellites, filter, (n - 1) as nat).push((n - 1) as usize)
    } else {
        listed_upto(satellites, filter, (n - 1) as nat)
    }
}

/// The positions of the satellites that the list shows. An empty filter shows all.
pub fn listed_satellites(satellites: &Vec<SatelliteDefinition>, filter: &str) -> (slots: Vec<usize>)
    ensures
        slots@ == listed_upto(satellites@, filter@, satellites@.len()),
{
    let wanted = lower_chars(chars_of(filter).as_slice());
    let mut slots: Vec<usize> = Vec::new();
    let mut i: usize = 0;
    while i < satellites.len()
        invariant
            i <= satellites@.len(),
            wanted@ == lowered(filter@),
            slots@ == listed_upto(satellites@, filter@, i as nat),
        decreases satellites@.len() - i,
    {
        let header = &satellites[i].satellite;
        let shown: bool = if wanted.len() == 0 {
            true
        } else {
            let name = lower_chars(chars_of(header.name.as_str()).as_slice());
            if contains_chars(name.as_slice(), wanted.as_slice()) {
                true
            } else {
                let number = chars_of(decimal_string(header.norad_id as u64).as_str());
                contains_chars(number.as_slice(), wanted.as_slice())
            }
        };
        if shown {
            slots.push(i);
        }
        i = i + 1;
    }
    slots
}

/// The position that stays selected when the list has `count` entries.
pub fn clamp_selection(selected: usize, count: usize) -> (kept: usize)
    ensures
        kept == (if count == 0 {
            0
        } else if selected < count {
            selected as int
        } else {
            count - 1
        }),
{
    if count == 0 {
        0
    } else if selected < count {
        selected
    } else {
        count - 1
    }
}

/// The first downlink that can be decoded, or the first of all where none can.
pub fn first_supported(supported: &Vec<bool>) -> (index: usize)
    ensures
        match first_true(supported@, 0) {
            Some(i) => index == i,
            None => index == 0,
        },
{
    let mut i: usize = 0;
    while i < supported.len()
        invariant
            i <= supported@.len(),
            first_true(supported@, 0) == first_true(supported@, i as int),
        decreases supported@.len() - i,
    {
        if supported[i] {
            return i;
        }
        i = i + 1;
    }
    0
}

/// The first position from `from` on that is marked.
pub open spec fn first_true(flags: Seq<bool>, from: int) -> Option<int>
    decreases flags.len() - from,
{
    if from >= flags.len() {
        None
    } else if flags[from] {
        Some(from)
    } else {
        first_true(flags, from + 1)
    }
}

/// A downlink carries SSTV images.
pub open spec fn is_sstv(downlink: DownlinkDef) -> bool {
    downlink.image matches Some(def) && def is Sstv
}

/// Whether a downlink carries SSTV images.
pub fn is_sstv_downlink(downlink: &DownlinkDef) -> (r: bool)
    ensures
        r == is_sstv(*downlink),
{
    match &downlink.image {
        Some(ImageDef::Sstv {  }) => true,
        _ => false,
    }
}

/// Whether a downlink can be decoded: SSTV always, any other where it has an input
/// `kind` and its pipeline can be built.
pub fn downlink_is_supported(
    downlink: &DownlinkDef,
    kind: Option<InputKind>,
    buildable: bool,
) -> (r: bool)
    ensures
        r == (is_sstv(*downlink) || (kind is Some && buildable)),
{
    if is_sstv_downlink(downlink) {
        true
    } else {
        kind.is_some() && buildable
    }
}

/// The words for an input kind.
pub open spec fn kind_words(kind: Option<InputKind>) -> Seq<char> {
    match kind {
        Some(InputKind::Audio) => "audio"@,
        Some(InputKind::Iq) => "IQ"@,
        Some(InputKind::FmAudio) => "FM audio"@,
        None => "unsupported"@,
    }
}

/// The words for an input kind.
pub fn input_kind_label(kind: Option<InputKind>) -> (text: &'static str)
    ensures
        text@ == kind_words(kind),
{
    match kind {
        Some(InputKind::Audio) => "audio",
        Some(InputKind::Iq) => "IQ",
        Some(InputKind::FmAudio) => "FM audio",
        None => "unsupported",
    }
}

/// The words for the input of a downlink.
pub open spec fn downlink_kind_words(downlink: DownlinkDef, kind: Option<InputKind>) -> Seq<char> {
    if is_sstv(downlink) {
        "audio (SSTV)"@
    } else {
        kind_words(kind)
    }
}

/// The words for the input of a downlink.
pub fn downlink_input_kind_label(downlink: &DownlinkDef, kind: Option<InputKind>) -> (text:
    &'static str)
    ensures
        text@ == downlink_kind_words(*downlink, kind),
{
    if is_sstv_downlink(downlink) {
        "audio (SSTV)"
    } else {
        input_kind_label(kind)
    }
}

/// The name of a downlink in the list; `mhz` is its frequency with three decimals.
pub fn downlink_combo_label(downlink: &DownlinkDef, mhz: &str, supported: bool) -> (text: String)
    ensures
        text@ == mhz@ + " MHz "@ + downlink.modulation@ + " "@ + decimal(downlink.baudrate as nat)
            + "bd "@ + downlink.framing@ + (if supported {
            ""@
        } else {
            " unsupported"@
        }),
{
    let support: &str = if supported { "" } else { " unsupported" };
    mhz.to_string().concat(" MHz ").concat(downlink.modulation.as_str()).concat(" ").concat(
        decimal_string(downlink.baudrate as u64).as_str(),
    ).concat("bd ").concat(downlink.framing.as_str()).concat(support)
}

/// The caption of the spectrum; `mhz` is the frequency of the downlink with three
/// decimals.
pub fn spectrum_label(downlink: Option<&DownlinkDef>, mhz: &str, kind: Option<InputKind>) -> (text:
    String)
    ensures
        text@ == (match downlink {
            Some(d) => mhz@ + " MHz | "@ + d.modulation@ + " "@ + decimal(d.baudrate as nat)
                + "bd | "@ + d.framing@ + " | "@ + downlink_kind_words(*d, kind),
            None => "no downlink selected"@,
        }),
{
    match downlink {
        Some(d) => mhz.to_string().concat(" MHz | ").concat(d.modulation.as_str()).concat(
            " ",
        ).concat(decimal_string(d.baudrate as u64).as_str()).concat("bd | ").concat(
            d.framing.as_str(),
        ).concat(" | ").concat(downlink_input_kind_label(d, kind)),
        None => "no downlink selected".to_string(),
    }
}

/// Half the width of the spectrum in Hz: half the sample rate of a recording, but at
/// least six kilohertz.
pub fn spectrum_span_hz(input: InputMode, input_rate: u32) -> (span: u32)
    ensures
        span == (if input == InputMode::WavFile && input_rate / 2 > 6_000 {
            input_rate / 2
        } else {
            6_000
        }),
{
    if input == InputMode::WavFile && input_rate / 2 > 6_000 {
        input_rate / 2
    } else {
        6_000
    }
}

/// The words for an audio mode.
pub fn audio_mode_label(mode: AudioMode) -> (text: &'static str)
    ensures
        text@ == (match mode {
            AudioMode::Auto => "Auto"@,
            AudioMode::Iq => "IQ"@,
            AudioMode::Fm => "FM"@,
            AudioMode::Ssb => "SSB"@,
        }),
{
    match mode {
        AudioMode::Auto => "Auto",
        AudioMode::Iq => "IQ",
        AudioMode::Fm => "FM",
        AudioMode::Ssb => "SSB",
    }
}

/// Whether the audio mode can be chosen: for downlinks on complex samples or FM audio.
pub fn audio_mode_enabled(kind: Option<InputKind>) -> (r: bool)
    ensures
        r == (kind == Some(InputKind::Iq) || kind == Some(InputKind::FmAudio)),
{
    match kind {
        Some(InputKind::Iq) => true,
        Some(InputKind::FmAudio) => true,
        _ => false,
    }
}

/// The share of an input that was read, in hundredths; zero where nothing is to be
/// read, and a hundred at most.
pub open spec fn percent(done: u64, total: u64) -> int {
    if total == 0 {
        0
    } else {
        let hundredfold = if done * 100 > u64::MAX {
            u64::MAX as int
        } else {
            done * 100
        };
        if hundredfold / total as int > 100 {
            100
        } else {
            hundredfold / total as int
        }
    }
}

fn progress_percent(done: u64, total: u64) -> (p: u64)
    ensures
        p == percent(done, total),
{
    if total == 0 {
        0
    } else {
        let hundredfold: u64 = if done > u64::MAX / 100 {
            u64::MAX
        } else {
            done * 100
        };
        if hundredfold / total > 100 {
            100
        } else {
            hundredfold / total
        }
    }
}

/// The progress in the status bar.
pub fn play_label(done: u64, total: u64) -> (text: String)
    ensures
        text@ == "play "@ + decimal(done as nat) + " / "@ + decimal(total as nat) + " ("@ + decimal(
            percent(done, total) as nat,
        ) + "%)"@,
{
    "play ".to_string().concat(decimal_string(done).as_str()).concat(" / ").concat(
        decimal_string(total).as_str(),
    ).concat(" (").concat(decimal_string(progress_percent(done, total)).as_str()).concat("%)")
}

/// Colour of a text in the status bar.
#[derive(Debug, Clone, Copy, PartialEq, Eq, Structural)]
pub enum Tone {
    /// Grey.
    Muted,
    /// Green.
    Good,
    /// Red.
    Bad,
}

/// The segment on syncwords: matched and tried, green once one has matched. Nothing
/// where the framer looks for none.
pub fn sync_segment(stats: &PipelineStats) -> (segment: Option<(String, Tone)>)
    ensures
        match (segment, stats.sync_locked, stats.sync_attempts) {
            (Some((text, tone)), Some(locked), Some(attempts)) => {
                &&& text@ == "sync: "@ + decimal(locked as nat) + "/"@ + decimal(attempts as nat)
                &&& tone == (if locked > 0 {
                    Tone::Good
                } else {
                    Tone::Muted
                })
            },
            (None, Some(_), Some(_)) => false,
            (Some(_), _, _) => false,
            (None, _, _) => true,
        },
{
    match (stats.sync_locked, stats.sync_attempts) {
        (Some(locked), Some(attempts)) => {
            let text = "sync: ".to_string().concat(decimal_string(locked).as_str()).concat(
                "/",
            ).concat(decimal_string(attempts).as_str());
            let tone = if locked > 0 { Tone::Good } else { Tone::Muted };
            Some((text, tone))
        },
        _ => None,
    }
}

/// A sum that stays at the largest value.
pub open spec fn capped(n: int) -> int {
    if n > u64::MAX {
        u64::MAX as int
    } else {
        n
    }
}

/// The colour of the checksums: grey before the first, green while at least half of
/// them hold, else red.
pub open spec fn crc_tone(crc_ok: u64, crc_fail: u64) -> Tone {
    let total = capped(crc_ok + crc_fail);
    if total == 0 {
        Tone::Muted
    } else if capped(2 * crc_ok) >= total {
        Tone::Good
    } else {
        Tone::Bad
    }
}

/// The segment on checksums: those that held and all. Nothing where the codec has
/// none.
pub fn crc_segment(stats: &PipelineStats) -> (segment: Option<(String, Tone)>)
    ensures
        match (segment, stats.crc_ok, stats.crc_fail) {
            (Some((text, tone)), Some(held), Some(failed)) => {
                &&& text@ == "crc: "@ + decimal(held as nat) + "/"@ + decimal(
                    capped(held + failed) as nat,
                )
                &&& tone == crc_tone(held, failed)
            },
            (None, Some(_), Some(_)) => false,
            (Some(_), _, _) => false,
            (None, _, _) => true,
        },
{
    match (stats.crc_ok, stats.crc_fail) {
        (Some(held), Some(failed)) => {
            let total: u64 = if failed > u64::MAX - held { u64::MAX } else { held + failed };
            let twice: u64 = if held > u64::MAX / 2 { u64::MAX } else { 2 * held };
            let tone = if total == 0 {
                Tone::Muted
            } else if twice >= total {
                Tone::Good
            } else {
                Tone::Bad
            };
            let text = "crc: ".to_string().concat(decimal_string(held).as_str()).concat(
                "/",
            ).concat(decimal_string(total).as_str());
            Some((text, tone))
        },
        _ => None,
    }
}

/// A status line that speaks of something wrong.
pub open spec fn alarming(status: Seq<char>) -> bool {
    let low = lowered(status);
    ||| occurs(low, "failed"@)
    ||| occurs(low, "error"@)
    ||| occurs(low, "unsupported"@)
    ||| occurs(low, "requires"@)
    ||| occurs(low, "missing"@)
}

/// The colour of the status line: red where it speaks of something wrong.
pub fn status_tone(status: &str) -> (tone: Tone)
    ensures
        tone == (if alarming(status@) {
            Tone::Bad
        } else {
            Tone::Muted
        }),
{
    let low = text_from(lower_chars(chars_of(status).as_slice()).as_slice());
    let line = low.as_str();
    if contains(line, "failed") || contains(line, "error") || contains(line, "unsupported")
        || contains(line, "requires") || contains(line, "missing") {
        Tone::Bad
    } else {
        Tone::Muted
    }
}

/// A text cut to its end: where it is longer than `max_chars`, an ellipsis stands for
/// what is cut off at its start.
pub open spec fn cut_left(text: Seq<char>, max_chars: int) -> Seq<char> {
    if text.len() <= max_chars {
        text
    } else if max_chars <= 1 {
        seq!['\u{2026}']
    } else {
        seq!['\u{2026}'] + text.subrange(text.len() - max_chars + 1, text.len() as int)
    }
}

/// Cut a text at its start to at most `max_chars` characters, with an ellipsis for
/// what is cut off; the ellipsis stays even where there is no room for it.
pub fn truncate_left_with_ellipsis(value: &str, max_chars: usize) -> (text: String)
    ensures
        text@ == cut_left(value@, max_chars as int),
{
    let chars = chars_of(value);
    let total: usize = chars.len();
    if total <= max_chars {
        return value.to_string();
    }
    let mut out: Vec<char> = Vec::new();
    out.push('\u{2026}');
    if max_chars > 1 {
        let from: usize = total - max_chars + 1;
        let mut i: usize = from;
        while i < total
            invariant
                from <= i <= total,
                total == chars@.len(),
                out@ == seq!['\u{2026}'] + chars@.subrange(from as int, i as int),
            decreases total - i,
        {
            out.push(chars[i]);
            i = i + 1;
            assert(out@ =~= seq!['\u{2026}'] + chars@.subrange(from as int, i as int));
        }
    }
    assert(out@ =~= cut_left(value@, max_chars as int));
    text_from(out.as_slice())
}

/// A text that was cut fits the width, where there is room for the ellipsis at all,
/// and ends as the whole does.
pub proof fn law_cut_text_fits(text: Seq<char>, max_chars: int)
    requires
        max_chars >= 1,
    ensures
        cut_left(text, max_chars).len() <= max_chars,
        text.len() > max_chars ==> cut_left(text, max_chars).drop_first() == text.subrange(
            text.len() - max_chars + 1,
            text.len() as int,
        ),
{
    if text.len() > max_chars {
        assert(cut_left(text, max_chars).drop_first() =~= text.subrange(
            text.len() - max_chars + 1,
            text.len() as int,
        ));
    }
}

/// An entry of the event log as it is shown.
pub fn diagnostic_label(entry: &DiagnosticEntry) -> (text: String)
    ensures
        text@ == (match entry.level {
            DiagnosticLevel::Info => "[info] "@,
            DiagnosticLevel::Warn => "[warn] "@,
            DiagnosticLevel::Error => "[error] "@,
        }) + entry.text@,
{
    let head: &str = match entry.level {
        DiagnosticLevel::Info => "[info] ",
        DiagnosticLevel::Warn => "[warn] ",
        DiagnosticLevel::Error => "[error] ",
    };
    head.to_string().concat(entry.text.as_str())
}

/// The heading of the telemetry panel: the satellite, and the number of the selected
/// frame where there is one.
pub fn telemetry_title(satellite: Option<&str>, frame: Option<usize>) -> (text: String)
    ensures
        text@ == ({
            let name = match satellite {
                Some(s) => s@,
                None => "-"@,
            };
            match frame {
                Some(index) => "Telemetry: "@ + name + " frame #"@ + decimal(index as nat),
                None => "Telemetry: "@ + name,
            }
        }),
{
    let name: &str = match satellite {
        Some(s) => s,
        None => "-",
    };
    let title = "Telemetry: ".to_string().concat(name);
    match frame {
        Some(index) => title.concat(" frame #").concat(decimal_string(index as u64).as_str()),
        None => title,
    }
}

/// The sound card that stays selected: the chosen one while it is still present, else
/// the default one.
pub fn keep_device(selected: &Option<String>, present: &Vec<String>) -> (kept: Option<String>)
    ensures
        match (*selected, kept) {
            (Some(name), Some(k)) => k@ == name@ && has_device(present@, name@),
            (Some(name), None) => !has_device(present@, name@),
            (None, None) => true,
            (None, Some(_)) => false,
        },
{
    match selected {
        None => None,
        Some(name) => {
            let mut i: usize = 0;
            while i < present.len()
                invariant
                    i <= present@.len(),
                    *selected == Some(*name),
                    forall|k: int| 0 <= k < i ==> #[trigger] present@[k]@ != name@,
                decreases present@.len() - i,
            {
                if present[i] == *name {
                    assert(present@[i as int]@ == name@);
                    return Some(name.clone());
                }
                i = i + 1;
            }
            None
        },
    }
}

/// A device with this name is present.
pub open spec fn has_device(present: Seq<String>, name: Seq<char>) -> bool {
    exists|i: int| 0 <= i < present.len() && #[trigger] present[i]@ == name
}

} // verus!
