//! Slow-Scan Television (SSTV) decoder.
//!
//! SSTV is a family of analogue picture-transmission protocols sent over
//! voice-bandwidth FM channels. The pixel intensity is encoded as audio
//! frequency on a 1500 Hz (black) to 2300 Hz (white) ramp; sync pulses are at
//! 1200 Hz; the VIS code at the start of each image identifies the mode.
//!
//! This module holds the decisions: where to look for the tones of a VIS code
//! and what they mean, when a picture is complete, and which rows of a Robot36
//! picture share their chroma. The tones themselves are measured elsewhere.
use vstd::prelude::*;

verus! {

/// Recognised SSTV mode after VIS decode.
#[derive(Debug, Clone, Copy, PartialEq, Eq, Structural)]
pub enum SstvMode {
    /// Robot36 (mode code 0x08): 320x240 YCbCr 4:2:0 colour, 36 s.
    Robot36,
    /// PD120 (mode code 0x5F): 640x496 YUV 4:2:0 colour, 126 s. Mode is detected
    /// but image scanning is not implemented.
    Pd120,
}

/// The mode of a VIS code; the top bit of the code does not count.
pub open spec fn mode_of(code: nat) -> Option<SstvMode> {
    if code % 128 == 0x08 {
        Some(SstvMode::Robot36)
    } else if code % 128 == 0x5f {
        Some(SstvMode::Pd120)
    } else {
        None
    }
}

impl SstvMode {
    /// Decode an SSTV mode from a 7-bit VIS code (data bits only, parity already
    /// verified by the caller).
    pub fn from_vis_code(code: u8) -> (r: Option<Self>)
        ensures
            r == mode_of(code as nat),
    {
        let low: u8 = code % 128;
        if low == 0x08 {
            Some(SstvMode::Robot36)
        } else if low == 0x5f {
            Some(SstvMode::Pd120)
        } else {
            None
        }
    }

    /// The width of the mode's pictures.
    pub open spec fn spec_width(self) -> nat {
        match self {
            SstvMode::Robot36 => 320,
            SstvMode::Pd120 => 640,
        }
    }

    /// The height of the mode's pictures.
    pub open spec fn spec_height(self) -> nat {
        match self {
            SstvMode::Robot36 => 240,
            SstvMode::Pd120 => 496,
        }
    }

    /// Image width in pixels for this mode.
    pub fn width(self) -> (n: u32)
        ensures
            n == self.spec_width(),
    {
        match self {
            SstvMode::Robot36 => 320,
            SstvMode::Pd120 => 640,
        }
    }

    /// Image height in pixels for this mode.
    pub fn height(self) -> (n: u32)
        ensures
            n == self.spec_height(),
    {
        match self {
            SstvMode::Robot36 => 240,
            SstvMode::Pd120 => 496,
        }
    }
}

/// One decoded SSTV image.
#[derive(Debug)]
pub struct SstvImage {
    /// Source mode.
    pub mode: SstvMode,
    /// Image width in pixels.
    pub width: u32,
    /// Image height in pixels.
    pub height: u32,
    /// Image pixels as `RGB888`, row-major from top to bottom.
    pub pixels: Vec<u8>,
}

/// A black image of the mode.
pub fn decode_stub(mode: SstvMode) -> (image: SstvImage)
    ensures
        image.mode == mode,
        image.width == mode.spec_width(),
        image.height == mode.spec_height(),
        image.pixels@ == Seq::new(
            3 * (mode.spec_width() * mode.spec_height()),
            |i: int| 0u8,
        ),
{
    let width: u32 = mode.width();
    let height: u32 = mode.height();
    let count: usize = match mode {
        SstvMode::Robot36 => 230_400,
        SstvMode::Pd120 => 952_320,
    };
    let pixels: Vec<u8> = vec![0u8; count];
    assert(pixels@ =~= Seq::new(3 * (mode.spec_width() * mode.spec_height()), |i: int| 0u8));
    SstvImage { mode, width, height, pixels }
}

/// Lengths of the parts of a VIS code, in samples.
#[derive(Debug, Clone, Copy, PartialEq, Eq, Structural)]
pub struct VisTiming {
    /// Each of the two leader tones (300 ms).
    pub leader: usize,
    /// The break between them (10 ms).
    pub break_pulse: usize,
    /// The start bit (30 ms).
    pub start_bit: usize,
    /// A data bit (30 ms).
    pub bit: usize,
    /// How far around its place the break is looked for (20 ms).
    pub window: usize,
    /// The step of the search for the leader (5 ms, at least a sample).
    pub step: usize,
    /// The step of finer searches (1 ms, at least a sample).
    pub fine: usize,
}

impl VisTiming {
    /// The steps make progress, and the length of a whole VIS code fits in a word.
    pub open spec fn ok(self) -> bool {
        &&& self.total() <= usize::MAX
        &&& 0 < self.step
        &&& 0 < self.fine
    }

    /// The length of a whole VIS code: two leaders, the break, the start bit,
    /// eight bits and the stop bit.
    pub open spec fn total(self) -> int {
        self.leader + self.break_pulse + self.leader + self.start_bit + 9 * self.bit
    }
}

/// What a stretch of samples is held against.
#[derive(Debug, Clone, Copy, PartialEq, Eq, Structural)]
pub enum Tone {
    /// The first leader: 1900 Hz, give or take 60 Hz.
    Leader,
    /// The break: 1200 Hz, give or take 80 Hz.
    Break,
    /// The second leader: 1900 Hz, not more than 60 Hz off.
    SecondLeader,
    /// The start bit: 1200 Hz, not more than 60 Hz off.
    StartBit,
    /// A data bit: nearer to 1100 Hz (a one) than to 1300 Hz.
    DataBit,
}

/// A question about the samples `start..start + len`.
#[derive(Debug, Clone, Copy, PartialEq, Eq, Structural)]
pub struct Probe {
    pub tone: Tone,
    pub start: usize,
    pub len: usize,
}

/// Answers to probes.
pub type Oracle = spec_fn(Probe) -> bool;

/// The first place of the leader, among `start`, one step on, and so on, below
/// `end`.
pub open spec fn first_leader(o: Oracle, t: VisTiming, start: nat, end: int) -> Option<nat>
    decreases
            if start < end {
                end - start
            } else {
                0
            },
{
    if start >= end || t.step == 0 {
        None
    } else if o(Probe { tone: Tone::Leader, start: start as usize, len: t.leader }) {
        Some(start)
    } else {
        first_leader(o, t, start + t.step as nat, end)
    }
}

/// The leader's first sample: back from `anchor` in fine steps as long as the
/// tone is there.
pub open spec fn leader_begin(o: Oracle, t: VisTiming, anchor: nat) -> nat
    decreases anchor,
{
    if anchor < t.fine || t.fine == 0 {
        anchor
    } else {
        let back = (anchor - t.fine) as nat;
        if o(Probe { tone: Tone::Leader, start: back as usize, len: t.leader }) {
            leader_begin(o, t, back)
        } else {
            anchor
        }
    }
}

/// The first place of the break, from `at` up to `last`.
pub open spec fn first_break(o: Oracle, t: VisTiming, at: nat, last: int) -> Option<nat>
    decreases
            if at <= last {
                last + 1 - at
            } else {
                0
            },
{
    if at > last || t.fine == 0 {
        None
    } else if o(Probe { tone: Tone::Break, start: at as usize, len: t.break_pulse }) {
        Some(at)
    } else {
        first_break(o, t, at + t.fine as nat, last)
    }
}

/// The weight of bit `i`: the low bit comes first, the eighth is the parity bit.
pub open spec fn bit_weight(i: nat) -> nat {
    if i == 0 {
        1
    } else if i == 1 {
        2
    } else if i == 2 {
        4
    } else if i == 3 {
        8
    } else if i == 4 {
        16
    } else if i == 5 {
        32
    } else if i == 6 {
        64
    } else {
        0
    }
}

/// Bit `i` of the data at `data`.
pub open spec fn data_bit(o: Oracle, t: VisTiming, data: nat, i: nat) -> bool {
    o(Probe { tone: Tone::DataBit, start: (data + i * t.bit as nat) as usize, len: t.bit })
}

/// The code and the number of ones, of the bits from `i` on added to `code` and
/// `ones`.
pub open spec fn read_bits(
    o: Oracle,
    t: VisTiming,
    data: nat,
    i: nat,
    code: nat,
    ones: nat,
) -> (nat, nat)
    decreases 8 - i,
{
    if i >= 8 {
        (code, ones)
    } else if data_bit(o, t, data, i) {
        read_bits(o, t, data, i + 1, code + bit_weight(i), ones + 1)
    } else {
        read_bits(o, t, data, i + 1, code, ones)
    }
}

/// The mode of a code with an even number of ones, and where the picture begins.
pub open spec fn vis_end(t: VisTiming, data: nat, code: nat, ones: nat) -> Option<
    (SstvMode, usize),
> {
    match mode_of(code) {
        Some(mode) => if ones % 2 == 0 {
            Some((mode, (data + 9 * t.bit) as usize))
        } else {
            None
        },
        None => None,
    }
}

/// What follows once the break is found at `at`.
pub open spec fn after_break(o: Oracle, t: VisTiming, len: int, at: nat) -> Option<
    (SstvMode, usize),
> {
    let second = at + t.break_pulse as nat;
    let start = second + t.leader as nat;
    let data = start + t.start_bit as nat;
    if data + 9 * t.bit > len {
        None
    } else if !o(Probe { tone: Tone::SecondLeader, start: second as usize, len: t.leader }) {
        None
    } else if !o(Probe { tone: Tone::StartBit, start: start as usize, len: t.start_bit }) {
        None
    } else {
        let (code, ones) = read_bits(o, t, data, 0, 0, 0);
        vis_end(t, data, code, ones)
    }
}

/// Where the break of a leader that begins at `begin` is looked for.
pub open spec fn break_range(t: VisTiming, len: int, begin: nat) -> (nat, int) {
    let expected = begin + t.leader as nat;
    (
        if expected < t.window {
            0
        } else {
            (expected - t.window) as nat
        },
        if expected + t.window < len - t.break_pulse {
            expected + t.window
        } else {
            len - t.break_pulse
        },
    )
}

/// What follows once the leader is known to begin at `begin`.
pub open spec fn after_leader(o: Oracle, t: VisTiming, len: int, begin: nat) -> Option<
    (SstvMode, usize),
> {
    let (lo, hi) = break_range(t, len, begin);
    match first_break(o, t, lo, hi) {
        Some(at) => after_break(o, t, len, at),
        None => None,
    }
}

/// The mode of the first VIS code in `len` samples, and where its picture begins.
pub open spec fn vis_result(o: Oracle, t: VisTiming, len: int) -> Option<(SstvMode, usize)> {
    if len < t.total() {
        None
    } else {
        match first_leader(o, t, 0, len - t.total()) {
            Some(start) => after_leader(o, t, len, leader_begin(o, t, start)),
            None => None,
        }
    }
}

/// How far the search has come.
#[derive(Debug, Clone, Copy)]
pub enum VisPhase {
    /// The leader is looked for at `start`.
    FindLeader { start: usize },
    /// The leader is at `anchor`; it may begin earlier.
    WalkBack { anchor: usize },
    /// The break is looked for at `at`, and up to `last`.
    FindBreak { at: usize, last: usize },
    /// The break is at `at`; the second leader comes next.
    CheckLeader { at: usize },
    /// The start bit at `at` comes next.
    CheckStart { at: usize },
    /// Bit `i` of the data at `data` comes next.
    ReadBit { data: usize, i: usize, code: u8, ones: u8 },
    /// The search is over.
    Done { found: Option<(SstvMode, usize)> },
}

/// The search for a VIS code: it asks for tones and is told whether they are
/// there.
pub struct VisSearch {
    timing: VisTiming,
    len: usize,
    phase: VisPhase,
}

/// What the search comes to from a phase.
pub open spec fn outcome(o: Oracle, t: VisTiming, len: int, phase: VisPhase) -> Option<
    (SstvMode, usize),
> {
    match phase {
        VisPhase::FindLeader { start } => match first_leader(
            o,
            t,
            start as nat,
            len - t.total(),
        ) {
            Some(s) => after_leader(o, t, len, leader_begin(o, t, s)),
            None => None,
        },
        VisPhase::WalkBack { anchor } => after_leader(
            o,
            t,
            len,
            leader_begin(o, t, anchor as nat),
        ),
        VisPhase::FindBreak { at, last } => match first_break(o, t, at as nat, last as int) {
            Some(b) => after_break(o, t, len, b),
            None => None,
        },
        VisPhase::CheckLeader { at } => after_break(o, t, len, at as nat),
        VisPhase::CheckStart { at } => if !o(
            Probe { tone: Tone::StartBit, start: at, len: t.start_bit },
        ) {
            None
        } else {
            let data = (at + t.start_bit) as nat;
            let (code, ones) = read_bits(o, t, data, 0, 0, 0);
            vis_end(t, data, code, ones)
        },
        VisPhase::ReadBit { data, i, code, ones } => {
            let (c, n) = read_bits(o, t, data as nat, i as nat, code as nat, ones as nat);
            vis_end(t, data as nat, c, n)
        },
        VisPhase::Done { found } => found,
    }
}

/// What a phase asks.
pub open spec fn question(t: VisTiming, phase: VisPhase) -> Option<Probe> {
    match phase {
        VisPhase::FindLeader { start } => Some(
            Probe { tone: Tone::Leader, start, len: t.leader },
        ),
        VisPhase::WalkBack { anchor } => Some(
            Probe { tone: Tone::Leader, start: (anchor - t.fine) as usize, len: t.leader },
        ),
        VisPhase::FindBreak { at, .. } => Some(
            Probe { tone: Tone::Break, start: at, len: t.break_pulse },
        ),
        VisPhase::CheckLeader { at } => Some(
            Probe {
                tone: Tone::SecondLeader,
                start: (at + t.break_pulse) as usize,
                len: t.leader,
            },
        ),
        VisPhase::CheckStart { at } => Some(
            Probe { tone: Tone::StartBit, start: at, len: t.start_bit },
        ),
        VisPhase::ReadBit { data, i, .. } => Some(
            Probe { tone: Tone::DataBit, start: (data + i * t.bit) as usize, len: t.bit },
        ),
        VisPhase::Done { .. } => None,
    }
}

/// The phase can be met with: every stretch asked for lies within the samples.
pub open spec fn phase_ok(t: VisTiming, len: int, phase: VisPhase) -> bool {
    match phase {
        VisPhase::FindLeader { start } => start < len - t.total(),
        VisPhase::WalkBack { anchor } => t.fine <= anchor && anchor < len - t.total(),
        VisPhase::FindBreak { at, last } => at <= last && last <= len - t.break_pulse,
        VisPhase::CheckLeader { at } => at + t.break_pulse + t.leader + t.start_bit + 9 * t.bit
            <= len,
        VisPhase::CheckStart { at } => at + t.start_bit + 9 * t.bit <= len,
        VisPhase::ReadBit { data, i, code, ones } => data + 9 * t.bit <= len && i < 8 && ones <= i
            && code < (if i == 7 {
            128
        } else {
            bit_weight(i as nat)
        }),
        VisPhase::Done { .. } => true,
    }
}

/// The phase that looks for the break of a leader that begins at `begin`.
pub open spec fn break_phase(t: VisTiming, len: int, begin: int) -> VisPhase {
    let (lo, hi) = break_range(t, len, begin as nat);
    if lo > hi {
        VisPhase::Done { found: None }
    } else {
        VisPhase::FindBreak { at: lo as usize, last: hi as usize }
    }
}

/// The phase that looks for the begin of a leader that is there at `anchor`.
pub open spec fn back_phase(t: VisTiming, len: int, anchor: int) -> VisPhase {
    if anchor < t.fine {
        break_phase(t, len, anchor)
    } else {
        VisPhase::WalkBack { anchor: anchor as usize }
    }
}

/// The phase that a search begins with.
pub open spec fn first_phase(t: VisTiming, len: int) -> VisPhase {
    if len <= t.total() {
        VisPhase::Done { found: None }
    } else {
        VisPhase::FindLeader { start: 0 }
    }
}

/// The phase that the answer to the question of a phase leads to.
pub open spec fn phase_after(t: VisTiming, len: int, phase: VisPhase, yes: bool) -> VisPhase {
    let none = VisPhase::Done { found: None };
    match phase {
        VisPhase::FindLeader { start } => if yes {
            back_phase(t, len, start as int)
        } else if start + t.step < len - t.total() {
            VisPhase::FindLeader { start: (start + t.step) as usize }
        } else {
            none
        },
        VisPhase::WalkBack { anchor } => if yes {
            back_phase(t, len, anchor - t.fine)
        } else {
            break_phase(t, len, anchor as int)
        },
        VisPhase::FindBreak { at, last } => if yes {
            if at + t.break_pulse + t.leader + t.start_bit + 9 * t.bit > len {
                none
            } else {
                VisPhase::CheckLeader { at }
            }
        } else if at + t.fine <= last {
            VisPhase::FindBreak { at: (at + t.fine) as usize, last }
        } else {
            none
        },
        VisPhase::CheckLeader { at } => if yes {
            VisPhase::CheckStart { at: (at + t.break_pulse + t.leader) as usize }
        } else {
            none
        },
        VisPhase::CheckStart { at } => if yes {
            VisPhase::ReadBit { data: (at + t.start_bit) as usize, i: 0, code: 0, ones: 0 }
        } else {
            none
        },
        VisPhase::ReadBit { data, i, code, ones } => {
            let c = code + if yes {
                bit_weight(i as nat)
            } else {
                0
            };
            let n = ones + if yes {
                1int
            } else {
                0
            };
            if i < 7 {
                VisPhase::ReadBit { data, i: (i + 1) as usize, code: c as u8, ones: n as u8 }
            } else {
                VisPhase::Done { found: vis_end(t, data as nat, c as nat, n as nat) }
            }
        },
        VisPhase::Done { .. } => phase,
    }
}

/// A bound on the answers that a search still needs.
pub open spec fn answers_left(len: int, phase: VisPhase) -> int {
    match phase {
        VisPhase::FindLeader { start } => 12 + 2 * (len + 1) + (len - start),
        VisPhase::WalkBack { anchor } => 11 + (len + 1) + anchor,
        VisPhase::FindBreak { at, last } => 11 + (last - at),
        VisPhase::CheckLeader { .. } => 10,
        VisPhase::CheckStart { .. } => 9,
        VisPhase::ReadBit { i, .. } => 8 - i,
        VisPhase::Done { .. } => 0,
    }
}

/// A search ends: every answer brings it nearer to its end, and it asks as long as
/// it is not there.
pub proof fn law_search_ends(t: VisTiming, len: int, phase: VisPhase, yes: bool)
    requires
        t.ok(),
        0 <= len <= usize::MAX,
        phase_ok(t, len, phase),
    ensures
        answers_left(len, phase) >= 0,
        answers_left(len, phase) == 0 <==> phase is Done,
        phase is Done <==> question(t, phase) is None,
        phase !is Done ==> 0 <= answers_left(len, phase_after(t, len, phase, yes))
            < answers_left(len, phase),
{
}

impl VisSearch {
    pub closed spec fn spec_timing(&self) -> VisTiming {
        self.timing
    }

    pub closed spec fn samples(&self) -> int {
        self.len as int
    }

    pub closed spec fn spec_phase(&self) -> VisPhase {
        self.phase
    }

    /// The search is in order.
    pub open spec fn wf(&self) -> bool {
        &&& self.spec_timing().ok()
        &&& self.samples() <= usize::MAX
        &&& phase_ok(self.spec_timing(), self.samples(), self.spec_phase())
    }

    /// Begin a search in `len` samples.
    pub fn new(timing: VisTiming, len: usize) -> (s: Self)
        requires
            timing.ok(),
        ensures
            s.wf(),
            s.spec_timing() == timing,
            s.samples() == len,
            s.spec_phase() == first_phase(timing, len as int),
            forall|o: Oracle| #[trigger]
                outcome(o, timing, len as int, s.spec_phase()) == vis_result(
                    o,
                    timing,
                    len as int,
                ),
    {
        let total: usize = timing.leader + timing.break_pulse + timing.leader + timing.start_bit + 9
            * timing.bit;
        let phase: VisPhase = if len <= total {
            VisPhase::Done { found: None }
        } else {
            VisPhase::FindLeader { start: 0 }
        };
        VisSearch { timing, len, phase }
    }

    /// The tone to measure next; none when the search is over.
    pub fn probe(&self) -> (p: Option<Probe>)
        requires
            self.wf(),
        ensures
            p == question(self.spec_timing(), self.spec_phase()),
            p matches Some(q) ==> q.start + q.len <= self.samples(),
    {
        let t: VisTiming = self.timing;
        match self.phase {
            VisPhase::FindLeader { start } => Some(
                Probe { tone: Tone::Leader, start, len: t.leader },
            ),
            VisPhase::WalkBack { anchor } => Some(
                Probe { tone: Tone::Leader, start: anchor - t.fine, len: t.leader },
            ),
            VisPhase::FindBreak { at, .. } => Some(
                Probe { tone: Tone::Break, start: at, len: t.break_pulse },
            ),
            VisPhase::CheckLeader { at } => Some(
                Probe { tone: Tone::SecondLeader, start: at + t.break_pulse, len: t.leader },
            ),
            VisPhase::CheckStart { at } => Some(
                Probe { tone: Tone::StartBit, start: at, len: t.start_bit },
            ),
            VisPhase::ReadBit { data, i, .. } => {
                proof {
                    lemma_bit_place(t.bit as int, i as int);
                }
                Some(Probe { tone: Tone::DataBit, start: data + i * t.bit, len: t.bit })
            },
            VisPhase::Done { .. } => None,
        }
    }

    /// What was found, once the search is over.
    pub fn result(&self) -> (r: Option<(SstvMode, usize)>)
        requires
            question(self.spec_timing(), self.spec_phase()) is None,
        ensures
            forall|o: Oracle| r == #[trigger] outcome(
                o,
                self.spec_timing(),
                self.samples(),
                self.spec_phase(),
            ),
    {
        match self.phase {
            VisPhase::Done { found } => found,
            _ => None,
        }
    }

    fn begin_break(t: VisTiming, len: usize, begin: usize) -> (phase: VisPhase)
        requires
            t.ok(),
            begin < len - t.total(),
        ensures
            phase_ok(t, len as int, phase),
            phase == break_phase(t, len as int, begin as int),
            forall|o: Oracle| #[trigger]
                outcome(o, t, len as int, phase) == after_leader(o, t, len as int, begin as nat),
    {
        let expected: usize = begin + t.leader;
        let lo: usize = if expected < t.window {
            0
        } else {
            expected - t.window
        };
        let far: usize = len - t.break_pulse;
        let hi: usize = if t.window < far - expected {
            expected + t.window
        } else {
            far
        };
        if lo > hi {
            VisPhase::Done { found: None }
        } else {
            VisPhase::FindBreak { at: lo, last: hi }
        }
    }

    fn walk_back(t: VisTiming, len: usize, anchor: usize) -> (phase: VisPhase)
        requires
            t.ok(),
            anchor < len - t.total(),
        ensures
            phase_ok(t, len as int, phase),
            phase == back_phase(t, len as int, anchor as int),
            forall|o: Oracle| #[trigger]
                outcome(o, t, len as int, phase) == after_leader(
                    o,
                    t,
                    len as int,
                    leader_begin(o, t, anchor as nat),
                ),
    {
        if anchor < t.fine {
            Self::begin_break(t, len, anchor)
        } else {
            VisPhase::WalkBack { anchor }
        }
    }

    /// Go on with the answer to the last probe.
    pub fn answer(&mut self, yes: bool)
        requires
            old(self).wf(),
            question(old(self).spec_timing(), old(self).spec_phase()) is Some,
        ensures
            final(self).wf(),
            final(self).spec_timing() == old(self).spec_timing(),
            final(self).samples() == old(self).samples(),
            final(self).spec_phase() == phase_after(
                old(self).spec_timing(),
                old(self).samples(),
                old(self).spec_phase(),
                yes,
            ),
            answers_left(old(self).samples(), final(self).spec_phase()) < answers_left(
                old(self).samples(),
                old(self).spec_phase(),
            ),
            forall|o: Oracle| #[trigger]
                o(question(old(self).spec_timing(), old(self).spec_phase())->Some_0) == yes
                    ==> outcome(
                    o,
                    old(self).spec_timing(),
                    old(self).samples(),
                    final(self).spec_phase(),
                ) == outcome(
                    o,
                    old(self).spec_timing(),
                    old(self).samples(),
                    old(self).spec_phase(),
                ),
    {
        let t: VisTiming = self.timing;
        let len: usize = self.len;
        let none: VisPhase = VisPhase::Done { found: None };
        let next: VisPhase = match self.phase {
            VisPhase::FindLeader { start } => {
                let end: usize = len - (t.leader + t.break_pulse + t.leader + t.start_bit + 9
                    * t.bit);
                if yes {
                    Self::walk_back(t, len, start)
                } else if t.step < end - start {
                    VisPhase::FindLeader { start: start + t.step }
                } else {
                    none
                }
            },
            VisPhase::WalkBack { anchor } => {
                if yes {
                    Self::walk_back(t, len, anchor - t.fine)
                } else {
                    Self::begin_break(t, len, anchor)
                }
            },
            VisPhase::FindBreak { at, last } => {
                if yes {
                    let rest: usize = t.break_pulse + t.leader + t.start_bit + 9 * t.bit;
                    if rest > len - at {
                        none
                    } else {
                        VisPhase::CheckLeader { at }
                    }
                } else if t.fine <= last - at {
                    VisPhase::FindBreak { at: at + t.fine, last }
                } else {
                    none
                }
            },
            VisPhase::CheckLeader { at } => {
                if yes {
                    VisPhase::CheckStart { at: at + t.break_pulse + t.leader }
                } else {
                    none
                }
            },
            VisPhase::CheckStart { at } => {
                if yes {
                    VisPhase::ReadBit { data: at + t.start_bit, i: 0, code: 0, ones: 0 }
                } else {
                    none
                }
            },
            VisPhase::ReadBit { data, i, code, ones } => {
                let weight: u8 = if i == 0 {
                    1
                } else if i == 1 {
                    2
                } else if i == 2 {
                    4
                } else if i == 3 {
                    8
                } else if i == 4 {
                    16
                } else if i == 5 {
                    32
                } else if i == 6 {
                    64
                } else {
                    0
                };
                let code: u8 = if yes {
                    code + weight
                } else {
                    code
                };
                let ones: u8 = if yes {
                    ones + 1
                } else {
                    ones
                };
                if i < 7 {
                    VisPhase::ReadBit { data, i: i + 1, code, ones }
                } else if ones % 2 != 0 {
                    none
                } else {
                    match SstvMode::from_vis_code(code) {
                        Some(mode) => VisPhase::Done { found: Some((mode, data + 9 * t.bit)) },
                        None => none,
                    }
                }
            },
            VisPhase::Done { found } => VisPhase::Done { found },
        };
        proof {
            let phase = self.phase;
            let q = question(t, phase)->Some_0;
            reveal_with_fuel(first_leader, 2);
            reveal_with_fuel(first_break, 2);
            reveal_with_fuel(leader_begin, 2);
            reveal_with_fuel(read_bits, 2);
            assert forall|o: Oracle| #[trigger] o(q) == yes implies outcome(
                o,
                t,
                len as int,
                next,
            ) == outcome(o, t, len as int, phase) by {
                match phase {
                    VisPhase::ReadBit { data, i, .. } => {
                        assert(q.start == (data + i * t.bit) as usize);
                        assert(data_bit(o, t, data as nat, i as nat) == yes);
                    },
                    _ => {},
                }
            }
        }
        self.phase = next;
    }
}

proof fn lemma_bit_place(bit: int, i: int)
    requires
        0 <= bit,
        0 <= i < 8,
    ensures
        0 <= i * bit,
        i * bit + bit <= 8 * bit,
{
    assert(0 <= i * bit && i * bit + bit <= 8 * bit) by (nonlinear_arith)
        requires
            0 <= bit,
            0 <= i < 8,
    ;
}

/// What the decoder waits for.
#[derive(Debug, Clone, Copy, PartialEq, Eq, Structural)]
pub enum SstvState {
    /// A VIS code has to come.
    AwaitingVis,
    /// A picture of that mode begins at that sample.
    Scanning { mode: SstvMode, scan_start: usize },
}

/// What to do with the samples at hand.
#[derive(Debug, Clone, Copy, PartialEq, Eq, Structural)]
pub enum SstvAction {
    /// More samples are needed.
    Wait,
    /// Look for a VIS code.
    Detect,
    /// Decode the picture in `start..end`.
    Decode { mode: SstvMode, start: usize, end: usize },
}

impl SstvState {
    /// What to do with `available` samples, when a VIS search needs `needed` and
    /// a picture of the mode scanned takes `frame_samples`.
    pub fn next_action(self, available: usize, needed: usize, frame_samples: usize) -> (a:
        SstvAction)
        ensures
            a == match self {
                SstvState::AwaitingVis => if available < needed {
                    SstvAction::Wait
                } else {
                    SstvAction::Detect
                },
                SstvState::Scanning { mode, scan_start } => if available < scan_start
                    + frame_samples {
                    SstvAction::Wait
                } else {
                    SstvAction::Decode {
                        mode,
                        start: scan_start,
                        end: (scan_start + frame_samples) as usize,
                    }
                },
            },
    {
        match self {
            SstvState::AwaitingVis => {
                if available < needed {
                    SstvAction::Wait
                } else {
                    SstvAction::Detect
                }
            },
            SstvState::Scanning { mode, scan_start } => {
                if available < scan_start || available - scan_start < frame_samples {
                    SstvAction::Wait
                } else {
                    SstvAction::Decode { mode, start: scan_start, end: scan_start + frame_samples }
                }
            },
        }
    }

    /// The state after a VIS search, and how many of the oldest samples to drop:
    /// without a code all but the last `keep`.
    pub fn after_search(found: Option<(SstvMode, usize)>, available: usize, keep: usize) -> (r: (
        SstvState,
        usize,
    ))
        ensures
            match found {
                Some((mode, at)) => r.0 == (SstvState::Scanning { mode, scan_start: at }) && r.1
                    == 0,
                None => r.0 == SstvState::AwaitingVis && r.1 == if available > keep {
                    (available - keep) as usize
                } else {
                    0
                },
            },
    {
        match found {
            Some((mode, at)) => (SstvState::Scanning { mode, scan_start: at }, 0),
            None => {
                if available > keep {
                    (SstvState::AwaitingVis, available - keep)
                } else {
                    (SstvState::AwaitingVis, 0)
                }
            },
        }
    }
}

/// How a row is painted: the rows whose chroma it takes.
#[derive(Debug, Clone, Copy, PartialEq, Eq, Structural)]
pub struct RowPaint {
    pub row: usize,
    /// The row with the blue difference.
    pub cb_row: usize,
    /// The row with the red difference.
    pub cr_row: usize,
}

/// Two neighbouring rows that share their chroma.
pub open spec fn mates(is_cr: Seq<bool>, a: int, b: int) -> Seq<RowPaint> {
    let (cb, cr) = if is_cr[a] {
        (b as usize, a as usize)
    } else {
        (a as usize, b as usize)
    };
    seq![
        RowPaint { row: a as usize, cb_row: cb, cr_row: cr },
        RowPaint { row: b as usize, cb_row: cb, cr_row: cr },
    ]
}

/// A row that has only its own chroma.
pub open spec fn alone(a: int) -> Seq<RowPaint> {
    seq![RowPaint { row: a as usize, cb_row: a as usize, cr_row: a as usize }]
}

/// How the rows from `row` on are painted, when the one before is held or not. A
/// row waits for its mate: the next row with the other difference. When that has
/// the same, the held row is painted alone and the new one is held.
pub open spec fn paint_plan(is_cr: Seq<bool>, row: int, held: bool) -> Seq<RowPaint>
    decreases is_cr.len() - row,
{
    if row >= is_cr.len() {
        if held {
            alone(row - 1)
        } else {
            Seq::empty()
        }
    } else if !held {
        paint_plan(is_cr, row + 1, true)
    } else if is_cr[row - 1] != is_cr[row] {
        mates(is_cr, row - 1, row) + paint_plan(is_cr, row + 1, false)
    } else {
        alone(row - 1) + paint_plan(is_cr, row + 1, true)
    }
}

/// Decide which rows share their chroma, given which of them carry the red
/// difference.
pub fn pair_rows(is_cr: &Vec<bool>) -> (plan: Vec<RowPaint>)
    ensures
        plan@ == paint_plan(is_cr@, 0, false),
{
    let n: usize = is_cr.len();
    let mut plan: Vec<RowPaint> = Vec::new();
    let mut held: bool = false;
    let mut row: usize = 0;
    assert(Seq::<RowPaint>::empty() + paint_plan(is_cr@, 0, false) =~= paint_plan(
        is_cr@,
        0,
        false,
    ));
    while row < n
        invariant
            n == is_cr@.len(),
            row <= n,
            held ==> row > 0,
            plan@ + paint_plan(is_cr@, row as int, held) == paint_plan(is_cr@, 0, false),
        decreases n - row,
    {
        let ghost before = plan@;
        if !held {
            held = true;
        } else if is_cr[row - 1] != is_cr[row] {
            let (cb, cr): (usize, usize) = if is_cr[row - 1] {
                (row, row - 1)
            } else {
                (row - 1, row)
            };
            plan.push(RowPaint { row: row - 1, cb_row: cb, cr_row: cr });
            plan.push(RowPaint { row, cb_row: cb, cr_row: cr });
            held = false;
            proof {
                let rest = paint_plan(is_cr@, row + 1, false);
                assert(plan@ + rest =~= before + (mates(is_cr@, row - 1, row as int) + rest));
            }
        } else {
            plan.push(RowPaint { row: row - 1, cb_row: row - 1, cr_row: row - 1 });
            proof {
                let rest = paint_plan(is_cr@, row + 1, true);
                assert(plan@ + rest =~= before + (alone(row - 1) + rest));
            }
        }
        row = row + 1;
    }
    let ghost before = plan@;
    if held {
        plan.push(RowPaint { row: row - 1, cb_row: row - 1, cr_row: row - 1 });
        assert(plan@ =~= before + alone(row - 1));
    } else {
        assert(plan@ =~= before + Seq::empty());
    }
    plan
}

proof fn lemma_plan(is_cr: Seq<bool>, row: int, held: bool)
    requires
        0 <= row <= is_cr.len(),
        is_cr.len() <= usize::MAX,
        held ==> row > 0,
    ensures
        ({
            let first = if held {
                row - 1
            } else {
                row
            };
            let plan = paint_plan(is_cr, row, held);
            &&& plan.len() == is_cr.len() - first
            &&& forall|k: int|
                0 <= k < plan.len() ==> (#[trigger] plan[k]).row == first + k && (plan[k].cb_row
                    == plan[k].cr_row || (!is_cr[plan[k].cb_row as int]
                    && is_cr[plan[k].cr_row as int]))
        }),
    decreases is_cr.len() - row,
{
    if row < is_cr.len() {
        if !held {
            lemma_plan(is_cr, row + 1, true);
        } else if is_cr[row - 1] != is_cr[row] {
            lemma_plan(is_cr, row + 1, false);
        } else {
            lemma_plan(is_cr, row + 1, true);
        }
    }
}

/// Every row is painted once, in order, and with chroma of both differences: from
/// a row with the blue one and a row with the red one, or from a single row.
pub proof fn law_every_row_is_painted(is_cr: Seq<bool>, k: int)
    requires
        is_cr.len() <= usize::MAX,
        0 <= k < is_cr.len(),
    ensures
        paint_plan(is_cr, 0, false).len() == is_cr.len(),
        paint_plan(is_cr, 0, false)[k].row == k,
        ({
            let p = paint_plan(is_cr, 0, false)[k];
            p.cb_row == p.cr_row || (!is_cr[p.cb_row as int] && is_cr[p.cr_row as int])
        }),
{
    lemma_plan(is_cr, 0, false);
}

/// Where the rows alternate, each pair shares its chroma.
pub proof fn law_pairs_share_chroma(is_cr: Seq<bool>, k: int)
    requires
        is_cr.len() <= usize::MAX,
        0 <= 2 * k,
        2 * k + 1 < is_cr.len(),
        forall|i: int|
            0 <= 2 * i && 2 * i + 1 < is_cr.len() ==> #[trigger] is_cr[2 * i] != is_cr[2 * i + 1],
    ensures
        ({
            let plan = paint_plan(is_cr, 0, false);
            plan[2 * k].cb_row == plan[2 * k + 1].cb_row && plan[2 * k].cr_row == plan[2 * k
                + 1].cr_row
        }),
{
    lemma_pairs(is_cr, 0, k);
    lemma_plan(is_cr, 0, false);
}

proof fn lemma_pairs(is_cr: Seq<bool>, j: int, k: int)
    requires
        is_cr.len() <= usize::MAX,
        0 <= j <= k,
        2 * k + 1 < is_cr.len(),
        forall|i: int|
            0 <= 2 * i && 2 * i + 1 < is_cr.len() ==> #[trigger] is_cr[2 * i] != is_cr[2 * i + 1],
    ensures
        ({
            let plan = paint_plan(is_cr, 2 * j, false);
            let at = 2 * (k - j);
            &&& at + 1 < plan.len()
            &&& plan[at].cb_row == plan[at + 1].cb_row
            &&& plan[at].cr_row == plan[at + 1].cr_row
        }),
    decreases k - j,
{
    assert(is_cr[2 * j] != is_cr[2 * j + 1]);
    let rest = paint_plan(is_cr, 2 * j + 2, false);
    assert(paint_plan(is_cr, 2 * j + 1, true) == mates(is_cr, 2 * j, 2 * j + 1) + rest);
    assert(paint_plan(is_cr, 2 * j, false) == paint_plan(is_cr, 2 * j + 1, true));
    if j < k {
        lemma_pairs(is_cr, j + 1, k);
    }
}

/// The number of rows of a picture of 240 rows that `samples` hold.
pub fn robot36_rows(samples: usize, line_len: usize) -> (n: usize)
    requires
        line_len > 0,
    ensures
        n <= 240,
        n * line_len <= samples,
        n < 240 ==> (n + 1) * line_len > samples,
{
    let whole: usize = samples / line_len;
    proof {
        vstd::arithmetic::div_mod::lemma_fundamental_div_mod(samples as int, line_len as int);
        vstd::arithmetic::div_mod::lemma_mod_bound(samples as int, line_len as int);
    }
    if whole < 240 {
        proof {
            let w = whole as int;
            let l = line_len as int;
            let m = samples as int % l;
            assert(w * l <= samples && (w + 1) * l > samples) by (nonlinear_arith)
                requires
                    samples == l * w + m,
                    0 <= m < l,
            ;
        }
        whole
    } else {
        proof {
            let w = whole as int;
            let l = line_len as int;
            let m = samples as int % l;
            assert(240 * l <= samples) by (nonlinear_arith)
                requires
                    samples == l * w + m,
                    0 <= m,
                    w >= 240,
                    l > 0,
            ;
        }
        240
    }
}

/// Set a pixel of an RGB888 picture.
pub fn paint_pixel(pixels: &mut Vec<u8>, width: usize, row: usize, col: usize, rgb: (u8, u8, u8))
    requires
        col < width,
        3 * ((row + 1) * width) <= old(pixels)@.len(),
    ensures
        final(pixels)@ == old(pixels)@.update(3 * (row * width + col), rgb.0).update(
            3 * (row * width + col) + 1,
            rgb.1,
        ).update(3 * (row * width + col) + 2, rgb.2),
{
    let total: usize = pixels.len();
    proof {
        assert((row + 1) * width == row * width + width) by (nonlinear_arith);
        assert(0 <= row * width) by (nonlinear_arith)
            requires
                row >= 0,
                width >= 0,
        ;
    }
    assert(3 * (row * width + col) + 2 < total);
    let p: usize = 3 * (row * width + col);
    pixels.set(p, rgb.0);
    pixels.set(p + 1, rgb.1);
    pixels.set(p + 2, rgb.2);
}

} // verus!
