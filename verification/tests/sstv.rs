//! SSTV headers and images.
use openhoshimi::sstv::{
    decode_stub, pair_rows, paint_pixel, robot36_rows, RowPaint, SstvAction, SstvMode, SstvState, Tone,
    VisSearch, VisTiming,
};

#[test]
fn vis_code_decodes_robot36() {
    assert_eq!(SstvMode::from_vis_code(0x08), Some(SstvMode::Robot36));
    assert_eq!(SstvMode::from_vis_code(0x5f), Some(SstvMode::Pd120));
    assert_eq!(SstvMode::from_vis_code(0x42), None);
}

#[test]
fn modes_have_their_sizes() {
    assert_eq!((SstvMode::Robot36.width(), SstvMode::Robot36.height()), (320, 240));
    assert_eq!((SstvMode::Pd120.width(), SstvMode::Pd120.height()), (640, 496));
    let stub = decode_stub(SstvMode::Pd120);
    assert_eq!(stub.pixels.len(), 640 * 496 * 3);
    assert!(stub.pixels.iter().all(|p| *p == 0));
}

/// Frequencies of a header for a mode code, with some silence before it.
fn header(lead: usize, code: u8, t: VisTiming) -> Vec<f32> {
    let mut out = vec![0.0f32; lead];
    out.extend(vec![1900.0; t.leader]);
    out.extend(vec![1200.0; t.break_pulse]);
    out.extend(vec![1900.0; t.leader]);
    out.extend(vec![1200.0; t.start_bit]);
    let mut ones = 0;
    for k in 0..7 {
        let bit = (code >> k) & 1;
        ones += bit;
        out.extend(vec![if bit == 1 { 1100.0 } else { 1300.0 }; t.bit]);
    }
    out.extend(vec![if ones % 2 == 1 { 1100.0 } else { 1300.0 }; t.bit]);
    out.extend(vec![1200.0; t.bit]);
    out.extend(vec![1500.0; 400]);
    out
}

fn timing() -> VisTiming {
    VisTiming { leader: 300, break_pulse: 10, start_bit: 30, bit: 30, window: 20, step: 5, fine: 1 }
}

fn search(freqs: &[f32]) -> Option<(SstvMode, usize)> {
    let mut s = VisSearch::new(timing(), freqs.len());
    while let Some(p) = s.probe() {
        let part = &freqs[p.start..p.start + p.len];
        let mean = part.iter().sum::<f32>() / part.len() as f32;
        let yes = match p.tone {
            Tone::Leader => (mean - 1900.0).abs() < 60.0,
            Tone::Break => (mean - 1200.0).abs() < 80.0,
            Tone::SecondLeader => (mean - 1900.0).abs() <= 60.0,
            Tone::StartBit => (mean - 1200.0).abs() <= 60.0,
            Tone::DataBit => (mean - 1100.0).abs() < (mean - 1300.0).abs(),
        };
        s.answer(yes);
    }
    s.result()
}

#[test]
fn search_finds_a_header() {
    let freqs = header(137, 0x08, timing());
    let (mode, end) = search(&freqs).expect("header");
    assert_eq!(mode, SstvMode::Robot36);
    assert!((137 + 905..=137 + 915).contains(&end), "end={end}");
    assert_eq!(search(&header(60, 0x5f, timing())).map(|r| r.0), Some(SstvMode::Pd120));
}

#[test]
fn search_finds_nothing_in_silence() {
    assert!(search(&[0.0; 2000]).is_none());
    assert!(search(&[]).is_none());
}

#[test]
fn analyzer_waits_searches_and_decodes() {
    assert!(matches!(
        SstvState::AwaitingVis.next_action(10, 100, 1000),
        SstvAction::Wait
    ));
    assert!(matches!(
        SstvState::AwaitingVis.next_action(100, 100, 1000),
        SstvAction::Detect
    ));
    let scanning = SstvState::Scanning { mode: SstvMode::Robot36, scan_start: 40 };
    assert!(matches!(scanning.next_action(1039, 100, 1000), SstvAction::Wait));
    assert!(matches!(
        scanning.next_action(1040, 100, 1000),
        SstvAction::Decode { mode: SstvMode::Robot36, start: 40, end: 1040 }
    ));
    assert_eq!(SstvState::after_search(None, 500, 200), (SstvState::AwaitingVis, 300));
    assert_eq!(SstvState::after_search(None, 100, 200), (SstvState::AwaitingVis, 0));
}

fn paint(row: usize, cb_row: usize, cr_row: usize) -> RowPaint {
    RowPaint { row, cb_row, cr_row }
}

#[test]
fn rows_without_a_mate_are_painted_alone() {
    // A repeated difference leaves the held row alone and holds the new one.
    let plan = pair_rows(&vec![false, false, true, true, true]);
    assert_eq!(
        plan,
        [paint(0, 0, 0), paint(1, 1, 2), paint(2, 1, 2), paint(3, 3, 3), paint(4, 4, 4)]
    );
    // The last row has nothing to wait for.
    assert_eq!(
        pair_rows(&vec![true, false, true]),
        [paint(0, 1, 0), paint(1, 1, 0), paint(2, 2, 2)]
    );
    assert_eq!(pair_rows(&vec![true]), [paint(0, 0, 0)]);
    assert_eq!(pair_rows(&vec![]), []);
}

#[test]
fn rows_are_paired_for_chroma() {
    let plan = pair_rows(&vec![true, false, true, false]);
    assert_eq!(plan, [paint(0, 1, 0), paint(1, 1, 0), paint(2, 3, 2), paint(3, 3, 2)]);
    assert_eq!(robot36_rows(2400 * 3 + 5, 2400), 3);
    assert_eq!(robot36_rows(2400 * 300, 2400), 240);
    let mut pixels = vec![0u8; 12];
    paint_pixel(&mut pixels, 2, 1, 0, (9, 8, 7));
    assert_eq!(pixels, [0, 0, 0, 0, 0, 0, 9, 8, 7, 0, 0, 0]);
}
