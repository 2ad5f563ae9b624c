//! CW (Morse code) decoder.
//!
//! CW has no fixed baudrate, no syncword and no frame size. A tone detector
//! tells, once per envelope period, whether the key is down; this module records
//! the key states as run-length events and turns the events, once their lengths
//! have been compared with that of a dit, into text.
use vstd::prelude::*;
use crate::morse::{
    get_code, get_letter, law_alphabet_inverts, lemma_code_range, lemma_no_space, morse_code,
    morse_letter,
};
use crate::satellite::Real32;

verus! {

/// Default envelope sampling rate (Hz). 100 Hz = 10 ms per envelope sample, fine
/// enough to separate dits at 50 WPM (24 ms) without drowning the detector in
/// noise.
pub const DEFAULT_ENVELOPE_RATE_HZ: u32 = 100;

/// Whether the key was down or up.
#[derive(Debug, Clone, Copy, PartialEq, Eq, Structural)]
pub enum EventKind {
    /// The key was down.
    Mark,
    /// The key was up.
    Gap,
}

/// A run of envelope samples with one key state.
#[derive(Debug, Clone, Copy, PartialEq, Eq, Structural)]
pub struct Event {
    pub kind: EventKind,
    pub envelopes: usize,
}

/// Configuration for [`CwAnalyzer`].
#[derive(Debug, Clone, Copy, PartialEq, Eq, Structural)]
pub struct CwAnalyzerConfig {
    /// Audio sample rate in Hz.
    pub sample_rate: u32,
    /// CW tone frequency in Hz (typical range 400-1000 Hz).
    pub tone_hz: Real32,
    /// Envelope sampling rate in Hz; one envelope sample per
    /// `sample_rate / envelope_rate_hz` audio samples.
    pub envelope_rate_hz: u32,
}

/// The bits of 700 Hz, the default tone.
pub const DEFAULT_CW_TONE_BITS: u32 = 0x442F_0000;

impl Default for CwAnalyzerConfig {
    fn default() -> (c: Self)
        ensures
            c.sample_rate == 48_000,
            c.tone_hz.bits == DEFAULT_CW_TONE_BITS,
            c.envelope_rate_hz == DEFAULT_ENVELOPE_RATE_HZ,
    {
        CwAnalyzerConfig {
            sample_rate: 48_000,
            tone_hz: Real32 { bits: DEFAULT_CW_TONE_BITS },
            envelope_rate_hz: DEFAULT_ENVELOPE_RATE_HZ,
        }
    }
}

impl CwAnalyzerConfig {
    /// Build a config using the given audio sample rate; everything else
    /// defaults.
    pub fn for_sample_rate(sample_rate: u32) -> (c: Self)
        ensures
            c.sample_rate == sample_rate,
            c.tone_hz.bits == DEFAULT_CW_TONE_BITS,
            c.envelope_rate_hz == DEFAULT_ENVELOPE_RATE_HZ,
    {
        CwAnalyzerConfig {
            sample_rate,
            tone_hz: Real32 { bits: DEFAULT_CW_TONE_BITS },
            envelope_rate_hz: DEFAULT_ENVELOPE_RATE_HZ,
        }
    }
}

/// What is wrong with a configuration.
pub open spec fn config_fault(c: CwAnalyzerConfig) -> Option<Seq<char>> {
    if c.sample_rate == 0 {
        Some("sample_rate must be > 0"@)
    } else if c.envelope_rate_hz == 0 {
        Some("envelope_rate_hz must be > 0"@)
    } else if !c.tone_hz.finite() || c.tone_hz.not_positive() {
        Some("tone_hz must be finite and > 0"@)
    } else {
        None
    }
}

/// The audio samples per envelope sample: at least one.
pub open spec fn period_of(c: CwAnalyzerConfig) -> nat {
    if c.sample_rate < c.envelope_rate_hz {
        1
    } else {
        (c.sample_rate / c.envelope_rate_hz) as nat
    }
}

/// The kind of a run with that key state.
pub open spec fn kind_of(key: bool) -> EventKind {
    if key {
        EventKind::Mark
    } else {
        EventKind::Gap
    }
}

/// What the recorder holds: the runs that ended, and the run that goes on.
#[verifier::ext_equal]
pub struct KeyState {
    pub events: Seq<Event>,
    pub key: bool,
    pub run: nat,
}

/// Nothing was recorded.
pub open spec fn no_keys() -> KeyState {
    KeyState { events: Seq::empty(), key: false, run: 0 }
}

/// The runs including the one that goes on.
pub open spec fn flushed(s: KeyState) -> Seq<Event> {
    if s.run > 0 {
        s.events.push(Event { kind: kind_of(s.key), envelopes: s.run as usize })
    } else {
        s.events
    }
}

/// The state after one more envelope sample.
pub open spec fn with_key(s: KeyState, key: bool) -> KeyState {
    if key == s.key {
        KeyState { run: s.run + 1, ..s }
    } else {
        KeyState { events: flushed(s), key, run: 1 }
    }
}

/// Records key states.
pub struct CwAnalyzer {
    config: CwAnalyzerConfig,
    envelope_period: usize,
    integrated_samples: usize,
    events: Vec<Event>,
    current_key_state: bool,
    current_run_envelopes: usize,
}

impl CwAnalyzer {
    /// The key states recorded.
    pub closed spec fn view(&self) -> KeyState {
        KeyState {
            events: self.events@,
            key: self.current_key_state,
            run: self.current_run_envelopes as nat,
        }
    }

    /// The configuration.
    pub closed spec fn spec_config(&self) -> CwAnalyzerConfig {
        self.config
    }

    /// How many samples of the current envelope period have come.
    pub closed spec fn taken(&self) -> nat {
        self.integrated_samples as nat
    }

    /// Nothing was recorded, and no sample is pending.
    pub open spec fn fresh(&self, config: CwAnalyzerConfig) -> bool {
        &&& self.wf()
        &&& self.spec_config() == config
        &&& self@ == no_keys()
        &&& self.taken() == 0
    }

    /// Less than an envelope period is pending.
    pub closed spec fn wf(&self) -> bool {
        &&& config_fault(self.config) is None
        &&& self.envelope_period == period_of(self.config)
        &&& self.integrated_samples < self.envelope_period
    }

    /// Create a CW analyzer with the supplied configuration.
    ///
    /// # Errors
    ///
    /// Returns `Err` if the configuration is invalid (zero sample rate, zero
    /// envelope rate, or non-positive tone frequency).
    pub fn new(config: CwAnalyzerConfig) -> (res: Result<Self, String>)
        ensures
            match config_fault(config) {
                Some(m) => res matches Err(e) && e@ == m,
                None => res matches Ok(a) && a.fresh(config),
            },
    {
        if config.sample_rate == 0 {
            return Err("sample_rate must be > 0".to_string());
        }
        if config.envelope_rate_hz == 0 {
            return Err("envelope_rate_hz must be > 0".to_string());
        }
        if !config.tone_hz.is_finite() || config.tone_hz.is_not_positive() {
            return Err("tone_hz must be finite and > 0".to_string());
        }
        let envelope_period: usize = if config.sample_rate < config.envelope_rate_hz {
            1
        } else {
            (config.sample_rate / config.envelope_rate_hz) as usize
        };
        proof {
            if config.sample_rate >= config.envelope_rate_hz {
                vstd::arithmetic::div_mod::lemma_div_non_zero(
                    config.sample_rate as int,
                    config.envelope_rate_hz as int,
                );
            }
        }
        let a = CwAnalyzer {
            config,
            envelope_period,
            integrated_samples: 0,
            events: Vec::new(),
            current_key_state: false,
            current_run_envelopes: 0,
        };
        assert(a@ =~= no_keys());
        Ok(a)
    }

    /// The configuration.
    pub fn config(&self) -> (c: CwAnalyzerConfig)
        ensures
            c == self.spec_config(),
    {
        self.config
    }

    /// Whether the key was down in the last envelope sample.
    pub fn key_is_down(&self) -> (r: bool)
        ensures
            r == self@.key,
    {
        self.current_key_state
    }

    /// Count an audio sample; whether it completes an envelope period.
    pub fn take_sample(&mut self) -> (complete: bool)
        requires
            old(self).wf(),
        ensures
            final(self).wf(),
            final(self)@ == old(self)@,
            final(self).spec_config() == old(self).spec_config(),
            complete == (old(self).taken() + 1 >= period_of(old(self).spec_config())),
            final(self).taken() == if complete {
                0
            } else {
                old(self).taken() + 1
            },
    {
        self.integrated_samples = self.integrated_samples + 1;
        if self.integrated_samples >= self.envelope_period {
            self.integrated_samples = 0;
            true
        } else {
            false
        }
    }

    /// Record the key state of an envelope sample.
    pub fn push_key(&mut self, key_state: bool)
        requires
            old(self).wf(),
            old(self)@.run < usize::MAX,
        ensures
            final(self).wf(),
            final(self)@ == with_key(old(self)@, key_state),
            final(self).spec_config() == old(self).spec_config(),
            final(self).taken() == old(self).taken(),
    {
        if key_state == self.current_key_state {
            self.current_run_envelopes = self.current_run_envelopes + 1;
            return;
        }
        self.end_run();
        self.current_key_state = key_state;
        self.current_run_envelopes = 1;
    }

    fn end_run(&mut self)
        ensures
            final(self)@ == (KeyState { events: flushed(old(self)@), ..old(self)@ }),
            final(self).config == old(self).config,
            final(self).envelope_period == old(self).envelope_period,
            final(self).integrated_samples == old(self).integrated_samples,
    {
        if self.current_run_envelopes > 0 {
            let kind: EventKind = if self.current_key_state {
                EventKind::Mark
            } else {
                EventKind::Gap
            };
            let event: Event = Event { kind, envelopes: self.current_run_envelopes };
            self.events.push(event);
        }
    }

    /// Hand out the recorded runs and start afresh: the recorder is as a new one, and
    /// the samples of an unfinished envelope period are forgotten.
    pub fn take_events(&mut self) -> (events: Vec<Event>)
        requires
            old(self).wf(),
        ensures
            events@ == flushed(old(self)@),
            final(self).fresh(old(self).spec_config()),
    {
        self.end_run();
        let mut events: Vec<Event> = Vec::new();
        std::mem::swap(&mut events, &mut self.events);
        self.integrated_samples = 0;
        self.current_run_envelopes = 0;
        self.current_key_state = false;
        assert(self@ =~= no_keys());
        events
    }
}

/// A run whose length was compared with that of a dit.
#[derive(Debug, Clone, Copy, PartialEq, Eq, Structural)]
pub struct TimedEvent {
    pub kind: EventKind,
    /// The run is shorter than two dits.
    pub below_two_dits: bool,
    /// The run is shorter than five dits.
    pub below_five_dits: bool,
}

/// The elements of a code: false for a dit, true for a dah.
pub open spec fn code_elements(c: nat) -> Seq<bool>
    decreases c,
{
    if c < 2 {
        Seq::empty()
    } else {
        code_elements(c / 2).push(c % 2 == 1)
    }
}

/// The elements are those of the entry.
pub open spec fn keys_entry(elements: Seq<bool>, i: int) -> bool {
    0 <= i < 54 && code_elements(morse_code(i) as nat) == elements
}

/// The character of the elements; a question mark where there is none.
pub open spec fn letter_of(elements: Seq<bool>) -> char {
    if exists|i: int| keys_entry(elements, i) {
        morse_letter(choose|i: int| keys_entry(elements, i))
    } else {
        '?'
    }
}

/// The text with the letter that the elements form, if there are any.
pub open spec fn with_letter(out: Seq<char>, elements: Seq<bool>) -> Seq<char> {
    if elements.len() == 0 {
        out
    } else {
        out.push(letter_of(elements))
    }
}

/// The text with a space, unless it is empty or ends in one.
pub open spec fn with_space(out: Seq<char>) -> Seq<char> {
    if out.len() > 0 && out.last() != ' ' {
        out.push(' ')
    } else {
        out
    }
}

/// The elements of the letter that goes on and the text, after an event.
pub open spec fn event_step(elements: Seq<bool>, out: Seq<char>, e: TimedEvent) -> (
    Seq<bool>,
    Seq<char>,
) {
    match e.kind {
        EventKind::Mark => (elements.push(!e.below_two_dits), out),
        EventKind::Gap => if e.below_two_dits {
            (elements, out)
        } else if e.below_five_dits {
            (Seq::empty(), with_letter(out, elements))
        } else {
            (Seq::empty(), with_space(with_letter(out, elements)))
        },
    }
}

/// The elements and the text after the first `n` events.
pub open spec fn events_done(events: Seq<TimedEvent>, n: nat) -> (Seq<bool>, Seq<char>)
    decreases n,
{
    if n == 0 {
        (Seq::empty(), Seq::empty())
    } else {
        let (elements, out) = events_done(events, (n - 1) as nat);
        event_step(elements, out, events[n - 1])
    }
}

/// The text of the events.
pub open spec fn events_text(events: Seq<TimedEvent>) -> Seq<char> {
    let (elements, out) = events_done(events, events.len());
    with_letter(out, elements)
}

/// The number whose elements these are.
pub open spec fn elements_code(elements: Seq<bool>) -> nat
    decreases elements.len(),
{
    if elements.len() == 0 {
        1
    } else {
        2 * elements_code(elements.drop_last()) + if elements.last() {
            1nat
        } else {
            0
        }
    }
}

proof fn lemma_elements(elements: Seq<bool>)
    ensures
        elements_code(elements) >= 1,
        code_elements(elements_code(elements)) == elements,
    decreases elements.len(),
{
    if elements.len() == 0 {
        assert(code_elements(1) =~= elements);
    } else {
        lemma_elements(elements.drop_last());
        let c = elements_code(elements);
        assert(c / 2 == elements_code(elements.drop_last()));
        assert((c % 2 == 1) == elements.last());
        assert(code_elements(c) =~= elements);
    }
}

proof fn lemma_code(c: nat)
    requires
        c >= 1,
    ensures
        elements_code(code_elements(c)) == c,
    decreases c,
{
    if c >= 2 {
        lemma_code(c / 2);
        assert(code_elements(c).drop_last() =~= code_elements(c / 2));
    }
}

/// A long run of elements has a large code.
proof fn lemma_long(elements: Seq<bool>)
    requires
        elements.len() >= 8,
    ensures
        elements_code(elements) >= 256,
    decreases elements.len(),
{
    if elements.len() > 8 {
        lemma_long(elements.drop_last());
    } else {
        reveal_with_fuel(elements_code, 9);
    }
}

/// The letter of an entry's elements is its character.
proof fn lemma_letter(i: int)
    requires
        0 <= i < 54,
    ensures
        letter_of(code_elements(morse_code(i) as nat)) == morse_letter(i),
{
    let elements = code_elements(morse_code(i) as nat);
    assert(keys_entry(elements, i));
    let j = choose|j: int| keys_entry(elements, j);
    lemma_code_range(i);
    lemma_code_range(j);
    lemma_code(morse_code(i) as nat);
    lemma_code(morse_code(j) as nat);
    law_alphabet_inverts(i, j);
}

/// The character of the elements.
fn lookup_letter(elements: &Vec<bool>) -> (c: char)
    ensures
        c == letter_of(elements@),
{
    let n: usize = elements.len();
    if n >= 8 {
        proof {
            lemma_long(elements@);
            assert forall|i: int| !keys_entry(elements@, i) by {
                if keys_entry(elements@, i) {
                    lemma_code_range(i);
                    lemma_code(morse_code(i) as nat);
                }
            }
        }
        return '?';
    }
    let mut code: u16 = 1;
    let mut k: usize = 0;
    assert(elements@.take(0) =~= Seq::empty());
    while k < n
        invariant
            n == elements@.len(),
            n < 8,
            k <= n,
            code == elements_code(elements@.take(k as int)),
            k == 0 ==> code == 1,
            k == 1 ==> code <= 3,
            k == 2 ==> code <= 7,
            k == 3 ==> code <= 15,
            k == 4 ==> code <= 31,
            k == 5 ==> code <= 63,
            k == 6 ==> code <= 127,
            k == 7 ==> code <= 255,
        decreases n - k,
    {
        let ghost shorter = elements@.take(k as int);
        code = 2 * code + if elements[k] {
            1
        } else {
            0
        };
        k = k + 1;
        assert(elements@.take(k as int).drop_last() =~= shorter);
    }
    assert(elements@.take(n as int) =~= elements@);
    proof {
        lemma_elements(elements@);
    }
    let mut i: usize = 0;
    while i < 54
        invariant
            i <= 54,
            code == elements_code(elements@),
            code_elements(code as nat) == elements@,
            forall|j: int| 0 <= j < i ==> #[trigger] morse_code(j) != code,
        decreases 54 - i,
    {
        if get_code(i) as u16 == code {
            proof {
                lemma_letter(i as int);
            }
            return get_letter(i);
        }
        i = i + 1;
    }
    proof {
        assert forall|j: int| !keys_entry(elements@, j) by {
            if keys_entry(elements@, j) {
                lemma_code_range(j);
                lemma_code(morse_code(j) as nat);
            }
        }
    }
    '?'
}

/// Append the letter that the elements form, if there are any, and drop them.
fn flush_letter(elements: &mut Vec<bool>, out: &mut String)
    ensures
        final(elements)@ == Seq::<bool>::empty(),
        final(out)@ == with_letter(old(out)@, old(elements)@),
{
    if elements.len() == 0 {
        return;
    }
    let c: char = lookup_letter(elements);
    out.push(c);
    *elements = Vec::new();
}

/// Turn timed runs into text: letters, question marks for elements that form no
/// letter, and single spaces for long gaps.
pub fn decode_events(events: &[TimedEvent]) -> (out: String)
    ensures
        out@ == events_text(events@),
{
    let mut out: String = String::new();
    let mut elements: Vec<bool> = Vec::new();
    let mut ends_in_space: bool = false;
    let n: usize = events.len();
    let mut i: usize = 0;
    let mut empty: bool = true;
    while i < n
        invariant
            n == events@.len(),
            i <= n,
            (elements@, out@) == events_done(events@, i as nat),
            empty == (out@.len() == 0),
            ends_in_space == (out@.len() > 0 && out@.last() == ' '),
        decreases n - i,
    {
        let e: TimedEvent = events[i];
        match e.kind {
            EventKind::Mark => {
                elements.push(!e.below_two_dits);
            },
            EventKind::Gap => {
                if !e.below_two_dits {
                    if elements.len() > 0 {
                        let c: char = lookup_letter(&elements);
                        out.push(c);
                        elements = Vec::new();
                        empty = false;
                        ends_in_space = c == ' ';
                    }
                    assert(elements@ =~= Seq::empty());
                    if !e.below_five_dits && !empty && !ends_in_space {
                        out.push(' ');
                        ends_in_space = true;
                    }
                }
            },
        }
        i = i + 1;
    }
    flush_letter(&mut elements, &mut out);
    out
}

/// One key state, `n` times.
pub open spec fn held(key: bool, n: nat) -> Seq<bool> {
    Seq::new(n, |i: int| key)
}

/// The key states of runs.
pub open spec fn expanded(events: Seq<Event>) -> Seq<bool>
    decreases events.len(),
{
    if events.len() == 0 {
        Seq::empty()
    } else {
        expanded(events.drop_last()) + held(
            events.last().kind == EventKind::Mark,
            events.last().envelopes as nat,
        )
    }
}

/// The state after key states.
pub open spec fn recorded(keys: Seq<bool>) -> KeyState
    decreases keys.len(),
{
    if keys.len() == 0 {
        no_keys()
    } else {
        with_key(recorded(keys.drop_last()), keys.last())
    }
}

proof fn lemma_flushed(s: KeyState)
    requires
        s.run <= usize::MAX,
    ensures
        expanded(flushed(s)) == expanded(s.events) + held(s.key, s.run),
{
    if s.run > 0 {
        assert(flushed(s).drop_last() =~= s.events);
    } else {
        assert(expanded(s.events) + held(s.key, s.run) =~= expanded(s.events));
    }
}

proof fn lemma_recorded(keys: Seq<bool>)
    requires
        keys.len() <= usize::MAX,
    ensures
        expanded(recorded(keys).events) + held(recorded(keys).key, recorded(keys).run) == keys,
        recorded(keys).run <= keys.len(),
    decreases keys.len(),
{
    if keys.len() > 0 {
        let before = recorded(keys.drop_last());
        lemma_recorded(keys.drop_last());
        lemma_flushed(before);
        let now = recorded(keys);
        let key = keys.last();
        assert(keys =~= keys.drop_last().push(key));
        if key == before.key {
            assert(held(key, before.run + 1) =~= held(key, before.run).push(key));
            assert(expanded(now.events) + held(now.key, now.run) =~= keys);
        } else {
            assert(held(key, 1) =~= seq![key]);
            assert(expanded(now.events) + held(now.key, now.run) =~= keys);
        }
    } else {
        assert(expanded(recorded(keys).events) + held(recorded(keys).key, recorded(keys).run)
            =~= keys);
    }
}

/// The runs that were recorded stand for exactly the key states that came.
pub proof fn law_runs_stand_for_keys(keys: Seq<bool>)
    requires
        keys.len() <= usize::MAX,
    ensures
        expanded(flushed(recorded(keys))) == keys,
{
    lemma_recorded(keys);
    lemma_flushed(recorded(keys));
}

/// Neighbouring runs are of different kinds.
pub open spec fn alternate(events: Seq<Event>) -> bool {
    forall|i: int, j: int|
        0 <= i < j < events.len() && j == i + 1 ==> (#[trigger] events[i]).kind != (
        #[trigger] events[j]).kind
}

proof fn lemma_alternate(keys: Seq<bool>)
    ensures
        alternate(recorded(keys).events),
        recorded(keys).events.len() > 0 ==> recorded(keys).events.last().kind != kind_of(
            recorded(keys).key,
        ),
    decreases keys.len(),
{
    if keys.len() > 0 {
        lemma_alternate(keys.drop_last());
    }
}

/// Marks and gaps alternate.
pub proof fn law_runs_alternate(keys: Seq<bool>)
    ensures
        alternate(flushed(recorded(keys))),
{
    lemma_alternate(keys);
}

/// The marks of an entry's code, with short gaps between them, are decoded to its
/// character.
pub proof fn law_letter_is_decoded(i: int, events: Seq<TimedEvent>)
    requires
        0 <= i < 54,
        events.len() == 2 * code_elements(morse_code(i) as nat).len(),
        forall|k: int|
            0 <= k < code_elements(morse_code(i) as nat).len() ==> {
                &&& (#[trigger] events[2 * k]).kind == EventKind::Mark
                &&& events[2 * k].below_two_dits == !code_elements(morse_code(i) as nat)[k]
                &&& events[2 * k + 1].kind == EventKind::Gap
                &&& events[2 * k + 1].below_two_dits
            },
    ensures
        events_text(events) == seq![morse_letter(i)],
{
    let elements = code_elements(morse_code(i) as nat);
    lemma_code_range(i);
    lemma_code(morse_code(i) as nat);
    lemma_spelled(elements, events, elements.len());
    lemma_letter(i);
    assert(elements.take(elements.len() as int) =~= elements);
    assert(elements.len() > 0);
    assert(events_text(events) =~= seq![morse_letter(i)]);
}

proof fn lemma_spelled(elements: Seq<bool>, events: Seq<TimedEvent>, n: nat)
    requires
        n <= elements.len(),
        events.len() == 2 * elements.len(),
        forall|k: int|
            0 <= k < elements.len() ==> {
                &&& (#[trigger] events[2 * k]).kind == EventKind::Mark
                &&& events[2 * k].below_two_dits == !elements[k]
                &&& events[2 * k + 1].kind == EventKind::Gap
                &&& events[2 * k + 1].below_two_dits
            },
    ensures
        events_done(events, 2 * n) == (elements.take(n as int), Seq::<char>::empty()),
    decreases n,
{
    if n > 0 {
        lemma_spelled(elements, events, (n - 1) as nat);
        let k = n - 1;
        assert(events[2 * k].kind == EventKind::Mark);
        let (e, out) = events_done(events, (2 * n - 2) as nat);
        assert(events_done(events, (2 * n - 1) as nat) == event_step(e, out, events[2 * k]));
        assert(elements.take(n as int) =~= elements.take(k).push(elements[k]));
    } else {
        assert(elements.take(0) =~= Seq::empty());
    }
}

/// A letter as it is keyed: the gap before it, its marks with the gaps between them, and
/// the character that it is shown as.
pub struct SentLetter {
    pub gap: TimedEvent,
    pub runs: Seq<TimedEvent>,
    pub shown: char,
}

/// Which of the marks are dahs.
pub open spec fn dahs(runs: Seq<TimedEvent>) -> Seq<bool> {
    Seq::new(((runs.len() + 1) / 2) as nat, |k: int| !runs[2 * k].below_two_dits)
}

/// A one, followed by a zero for each dit and a one for each dah, as a binary number.
pub open spec fn binary(marks: Seq<bool>) -> nat
    decreases marks.len(),
{
    if marks.len() == 0 {
        1
    } else if marks.last() {
        2 * binary(marks.drop_last()) + 1
    } else {
        2 * binary(marks.drop_last())
    }
}

/// The letter is keyed as it should be: a gap of two dits or more before it; marks and
/// gaps in turn, beginning and ending with a mark, the gaps shorter than two dits; and
/// shown as the character with these marks, or as a question mark if there is none.
pub open spec fn well_keyed(letter: SentLetter) -> bool {
    let runs = letter.runs;
    &&& letter.gap.kind == EventKind::Gap
    &&& !letter.gap.below_two_dits
    &&& runs.len() % 2 == 1
    &&& forall|k: int|
        0 <= k < runs.len() ==> (#[trigger] runs[k]).kind == if k % 2 == 0 {
            EventKind::Mark
        } else {
            EventKind::Gap
        }
    &&& forall|k: int| 0 <= k < runs.len() && k % 2 == 1 ==> (#[trigger] runs[k]).below_two_dits
    &&& (exists|i: int|
        0 <= i < 54 && #[trigger] morse_code(i) == binary(dahs(runs)) && letter.shown
            == morse_letter(i)) || (letter.shown == '?' && forall|i: int|
        0 <= i < 54 ==> #[trigger] morse_code(i) != binary(dahs(runs)))
}

/// The runs of a message.
pub open spec fn message_runs(letters: Seq<SentLetter>) -> Seq<TimedEvent>
    decreases letters.len(),
{
    if letters.len() == 0 {
        Seq::empty()
    } else {
        message_runs(letters.drop_last()).push(letters.last().gap) + letters.last().runs
    }
}

/// The text of a message: the characters in order, and a space before each but the first
/// that comes after a gap of five dits or more.
pub open spec fn message_text(letters: Seq<SentLetter>) -> Seq<char>
    decreases letters.len(),
{
    if letters.len() == 0 {
        Seq::empty()
    } else if letters.len() == 1 || letters.last().gap.below_five_dits {
        message_text(letters.drop_last()).push(letters.last().shown)
    } else {
        message_text(letters.drop_last()).push(' ').push(letters.last().shown)
    }
}

proof fn lemma_binary(marks: Seq<bool>)
    ensures
        binary(marks) == elements_code(marks),
    decreases marks.len(),
{
    if marks.len() > 0 {
        lemma_binary(marks.drop_last());
    }
}

proof fn lemma_shown(letter: SentLetter)
    requires
        well_keyed(letter),
    ensures
        letter_of(dahs(letter.runs)) == letter.shown,
        letter.shown != ' ',
{
    let marks = dahs(letter.runs);
    lemma_binary(marks);
    lemma_elements(marks);
    if exists|i: int|
        0 <= i < 54 && #[trigger] morse_code(i) == binary(marks) && letter.shown == morse_letter(i) {
        let i = choose|i: int|
            0 <= i < 54 && #[trigger] morse_code(i) == binary(marks) && letter.shown
                == morse_letter(i);
        lemma_letter(i);
        lemma_no_space(i);
    } else {
        assert forall|i: int| !keys_entry(marks, i) by {
            if keys_entry(marks, i) {
                lemma_code_range(i);
                lemma_code(morse_code(i) as nat);
            }
        }
    }
}

/// Only the events before the `n`th count for what is done after them.
proof fn lemma_done_prefix(a: Seq<TimedEvent>, b: Seq<TimedEvent>, n: nat)
    requires
        n <= a.len(),
        n <= b.len(),
        forall|k: int| 0 <= k < n ==> a[k] == b[k],
    ensures
        events_done(a, n) == events_done(b, n),
    decreases n,
{
    if n > 0 {
        lemma_done_prefix(a, b, (n - 1) as nat);
    }
}

/// The marks of a letter are gathered, whatever was done before.
proof fn lemma_marks(events: Seq<TimedEvent>, base: nat, letter: SentLetter, n: nat)
    requires
        well_keyed(letter),
        base + letter.runs.len() <= events.len(),
        forall|k: int| 0 <= k < letter.runs.len() ==> events[base + k] == letter.runs[k],
        events_done(events, base).0 == Seq::<bool>::empty(),
        n <= letter.runs.len(),
    ensures
        events_done(events, base + n) == (
            dahs(letter.runs).take(((n + 1) / 2) as int),
            events_done(events, base).1,
        ),
    decreases n,
{
    let marks = dahs(letter.runs);
    if n == 0 {
        assert(marks.take(0) =~= Seq::empty());
    } else {
        lemma_marks(events, base, letter, (n - 1) as nat);
        let e = events[base + n - 1];
        assert(e == letter.runs[n - 1]);
        let (elements, out) = events_done(events, (base + n - 1) as nat);
        assert(events_done(events, base + n) == event_step(elements, out, e));
        if (n - 1) % 2 == 0 {
            let j = (n - 1) / 2;
            assert(2 * j == n - 1);
            assert(marks.take(((n + 1) / 2) as int) =~= marks.take(j).push(marks[j]));
        }
    }
}

proof fn lemma_message(letters: Seq<SentLetter>)
    requires
        forall|k: int| 0 <= k < letters.len() ==> well_keyed(#[trigger] letters[k]),
    ensures
        ({
            let runs = message_runs(letters);
            let (elements, out) = events_done(runs, runs.len());
            &&& with_letter(out, elements) == message_text(letters)
            &&& letters.len() == 0 ==> elements.len() == 0 && out.len() == 0
            &&& letters.len() > 0 ==> message_text(letters).len() > 0 && message_text(
                letters,
            ).last() != ' '
        }),
    decreases letters.len(),
{
    if letters.len() > 0 {
        let before = letters.drop_last();
        let last = letters.last();
        assert(well_keyed(letters[letters.len() - 1]));
        assert forall|k: int| 0 <= k < before.len() implies well_keyed(#[trigger] before[k]) by {
            assert(before[k] == letters[k]);
        }
        lemma_message(before);
        lemma_shown(last);
        let runs = message_runs(letters);
        let early = message_runs(before);
        let n = early.len();
        lemma_done_prefix(runs, early, n);
        assert(runs[n as int] == last.gap);
        let (elements, out) = events_done(runs, n);
        assert(events_done(runs, n + 1) == event_step(elements, out, last.gap));
        lemma_marks(runs, n + 1, last, last.runs.len());
        let marks = dahs(last.runs);
        assert(marks.take(((last.runs.len() + 1) / 2) as int) =~= marks);
        assert(runs.len() == n + 1 + last.runs.len());
        if before.len() == 0 {
            assert(out =~= Seq::empty());
            assert(message_text(before) =~= Seq::empty());
        }
    }
}

/// A message of any number of letters and words is decoded to its characters, with a
/// single space wherever a gap of five dits or more parts two of them, and nowhere else.
/// The gap before the first letter makes no difference.
pub proof fn law_message_is_decoded(letters: Seq<SentLetter>)
    requires
        forall|k: int| 0 <= k < letters.len() ==> well_keyed(#[trigger] letters[k]),
    ensures
        events_text(message_runs(letters)) == message_text(letters),
        letters.len() > 0 ==> events_text(message_runs(letters).skip(1)) == message_text(letters),
{
    lemma_message(letters);
    if letters.len() > 0 {
        let runs = message_runs(letters);
        lemma_first_gap(letters);
        lemma_leading_gap(runs, (runs.len() - 1) as nat);
    }
}

proof fn lemma_first_gap(letters: Seq<SentLetter>)
    requires
        letters.len() > 0,
    ensures
        message_runs(letters).len() > 0,
        message_runs(letters)[0] == letters[0].gap,
    decreases letters.len(),
{
    let early = message_runs(letters.drop_last());
    assert(message_runs(letters)[0] == early.push(letters.last().gap)[0]);
    if letters.len() > 1 {
        lemma_first_gap(letters.drop_last());
        assert(early.push(letters.last().gap)[0] == early[0]);
    }
}

proof fn lemma_leading_gap(events: Seq<TimedEvent>, n: nat)
    requires
        n < events.len(),
        events[0].kind == EventKind::Gap,
    ensures
        events_done(events, n + 1) == events_done(events.skip(1), n),
    decreases n,
{
    if n == 0 {
        reveal_with_fuel(events_done, 2);
        let done = events_done(events, 1);
        assert(done.0 =~= Seq::empty());
        assert(done.1 =~= Seq::empty());
    } else {
        lemma_leading_gap(events, (n - 1) as nat);
    }
}

} // verus!
