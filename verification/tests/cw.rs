//! Morse decoding.
use openhoshimi::cw::{
    decode_events, CwAnalyzer, CwAnalyzerConfig, EventKind, TimedEvent, DEFAULT_ENVELOPE_RATE_HZ,
};
use openhoshimi::morse::{get_code, get_letter, MORSE_CHARS, MORSE_CODES};
use openhoshimi::satellite::Real32;

fn hertz(value: f32) -> Real32 {
    Real32 { bits: value.to_bits() }
}

#[test]
fn morse_table_inverts_uniquely() {
    let mut seen = std::collections::HashSet::new();
    for ch in MORSE_CHARS.iter() {
        assert!(seen.insert(*ch), "duplicate character in morse table: {ch}");
    }
}

#[test]
fn rejects_invalid_config() {
    let bad = CwAnalyzer::new(CwAnalyzerConfig {
        sample_rate: 0,
        tone_hz: hertz(700.0),
        envelope_rate_hz: 100,
    });
    assert!(bad.is_err());
    let bad_tone = CwAnalyzer::new(CwAnalyzerConfig {
        sample_rate: 48_000,
        tone_hz: hertz(-10.0),
        envelope_rate_hz: 100,
    });
    assert!(bad_tone.is_err());
}

fn mark(dits: u32) -> TimedEvent {
    TimedEvent { kind: EventKind::Mark, below_two_dits: dits < 2, below_five_dits: dits < 5 }
}

fn gap(dits: u32) -> TimedEvent {
    TimedEvent { kind: EventKind::Gap, below_two_dits: dits < 2, below_five_dits: dits < 5 }
}

#[test]
fn timed_runs_spell_words() {
    // C Q, a word gap, E.
    let events = [
        mark(3), gap(1), mark(1), gap(1), mark(3), gap(1), mark(1), gap(3),
        mark(3), gap(1), mark(3), gap(1), mark(1), gap(1), mark(3), gap(7),
        mark(1),
    ];
    assert_eq!(decode_events(&events), "CQ E");
}

#[test]
fn keys_become_runs() {
    let mut analyzer =
        CwAnalyzer::new(CwAnalyzerConfig::for_sample_rate(48_000)).expect("analyzer config");
    for key in [true, true, false, false, false, true] {
        analyzer.push_key(key);
    }
    let events = analyzer.take_events();
    assert_eq!(events.len(), 3);
    assert_eq!((events[0].kind, events[0].envelopes), (EventKind::Mark, 2));
    assert_eq!((events[1].kind, events[1].envelopes), (EventKind::Gap, 3));
    assert_eq!((events[2].kind, events[2].envelopes), (EventKind::Mark, 1));
    assert!(analyzer.take_events().is_empty());
}

#[test]
fn an_envelope_ends_every_period() {
    let mut analyzer =
        CwAnalyzer::new(CwAnalyzerConfig::for_sample_rate(48_000)).expect("analyzer config");
    let ends: Vec<usize> = (1..=1000).filter(|_| analyzer.take_sample()).collect();
    assert_eq!(ends, [480, 960]);
    assert_eq!(analyzer.config().envelope_rate_hz, DEFAULT_ENVELOPE_RATE_HZ);
}

#[test]
fn faults_of_a_configuration_are_named() {
    let fault = |sample_rate, tone: f32, envelope_rate_hz| {
        CwAnalyzer::new(CwAnalyzerConfig { sample_rate, tone_hz: hertz(tone), envelope_rate_hz })
            .err()
    };
    assert_eq!(fault(0, 700.0, 100).as_deref(), Some("sample_rate must be > 0"));
    assert_eq!(fault(48_000, 700.0, 0).as_deref(), Some("envelope_rate_hz must be > 0"));
    assert_eq!(fault(48_000, f32::NAN, 100).as_deref(), Some("tone_hz must be finite and > 0"));
    assert_eq!(fault(48_000, 0.0, 100).as_deref(), Some("tone_hz must be finite and > 0"));
    assert!(fault(48_000, 700.0, 100).is_none());
    assert_eq!(CwAnalyzerConfig::default().tone_hz, hertz(700.0));
}

#[test]
fn codes_carry_their_elements_below_a_leading_one() {
    // "A" is dit dah: 1, 0, 1.
    let at = MORSE_CHARS.iter().position(|c| *c == 'A').expect("letter");
    assert_eq!(MORSE_CODES[at], 0b101);
    assert_eq!(get_code(at), 0b101);
    assert_eq!(get_letter(at), 'A');
}

#[test]
fn an_emptied_recorder_starts_afresh() {
    let config =
        CwAnalyzerConfig { sample_rate: 200, tone_hz: hertz(50.0), envelope_rate_hz: 100 };
    let mut used = CwAnalyzer::new(config).expect("analyzer config");
    assert!(!used.take_sample());
    used.push_key(true);
    assert_eq!(used.take_events().len(), 1);
    assert!(!used.key_is_down());
    assert!(!used.take_sample());
    assert!(used.take_sample());
}
