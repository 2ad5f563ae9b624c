//! SSDV bitstream to JPEG re-encoder.
//!
//! SSDV packet payloads are not raw JPEG entropy data. They use the standard
//! JPEG Huffman tables but at every reset-MCU boundary the DC coefficient is
//! stored as an absolute value (so each packet decodes independently of its
//! predecessors). To produce a JPEG that an off-the-shelf decoder accepts, the
//! SSDV bitstream is Huffman-decoded one packet at a time, each absolute DC is
//! converted back to the standard differential form, and the result is
//! re-emitted with JPEG byte stuffing. Missing packets are filled with
//! zero-valued DC + EOB AC codes; no restart markers are emitted.
use vstd::prelude::*;
use vstd::arithmetic::div_mod::{
    lemma_fundamental_div_mod, lemma_fundamental_div_mod_converse, lemma_mod_bound,
    lemma_mod_decreases, lemma_small_mod,
};
use vstd::arithmetic::power2::{lemma2_to64, lemma_pow2_adds, lemma_pow2_pos, pow2};
use crate::jpeg_huffman::{
    code_of, int_code, int_value, jpeg_encode_int, jpeg_int, law_code_round_trip,
    law_int_round_trip, lemma_bit_width, lemma_bit_width_bound, lemma_code_width, lemma_int_range,
    lemma_lookup, lemma_symbols, lemma_tables, lookup, magnitude, table_bytes, table_encode,
    table_lookup, two_pow, Table, STD_DHT00, STD_DHT01, STD_DHT10, STD_DHT11,
};
use crate::jpeg_writer::{
    is_stuffed, law_stuffing, law_written_bits_are_appended, put, seen, synced, BitSink, SinkState,
};
use crate::slices::append_slice;
use crate::ssdv::{PacketModel, SsdvPacket};

verus! {

/// JFIF APP0 segment data (minus the 2-byte length field).
pub const APP0_DATA: [u8; 14] = [
    0x4A, 0x46, 0x49, 0x46, 0x00, 0x01, 0x01, 0x01, 0x00, 0x48, 0x00, 0x48, 0x00, 0x00,
];

/// SOS header data (3 components, Y/Cb/Cr).
pub const SOS_DATA: [u8; 10] = [0x03, 0x01, 0x00, 0x02, 0x11, 0x03, 0x11, 0x00, 0x3F, 0x00];

/// Quantisation table scaling factors for each quality level 0..=7.
pub const DQT_SCALES: [u16; 8] = [5000, 357, 172, 116, 100, 58, 28, 0];

/// The luma quantisation table, with its id.
pub const STD_DQT0: [u8; 65] = [
    0x00, 0x10, 0x0C, 0x0C, 0x0E, 0x0C, 0x0A, 0x10, 0x0E, 0x0E, 0x0E, 0x12, 0x12, 0x10, 0x14, 0x18,
    0x28, 0x1A, 0x18, 0x16, 0x16, 0x18, 0x32, 0x24, 0x26, 0x1E, 0x28, 0x3A, 0x34, 0x3E, 0x3C, 0x3A,
    0x34, 0x38, 0x38, 0x40, 0x48, 0x5C, 0x4E, 0x40, 0x44, 0x58, 0x46, 0x38, 0x38, 0x50, 0x6E, 0x52,
    0x58, 0x60, 0x62, 0x68, 0x68, 0x68, 0x3E, 0x4E, 0x72, 0x7A, 0x70, 0x64, 0x78, 0x5C, 0x66, 0x68,
    0x64,
];

/// The chroma quantisation table, with its id.
pub const STD_DQT1: [u8; 65] = [
    0x01, 0x12, 0x12, 0x12, 0x16, 0x16, 0x16, 0x30, 0x1A, 0x1A, 0x30, 0x64, 0x42, 0x38, 0x42, 0x64,
    0x64, 0x64, 0x64, 0x64, 0x64, 0x64, 0x64, 0x64, 0x64, 0x64, 0x64, 0x64, 0x64, 0x64, 0x64, 0x64,
    0x64, 0x64, 0x64, 0x64, 0x64, 0x64, 0x64, 0x64, 0x64, 0x64, 0x64, 0x64, 0x64, 0x64, 0x64, 0x64,
    0x64, 0x64, 0x64, 0x64, 0x64, 0x64, 0x64, 0x64, 0x64, 0x64, 0x64, 0x64, 0x64, 0x64, 0x64, 0x64,
    0x64,
];

/// A quantisation entry scaled in percent, rounded, and kept within a byte.
pub open spec fn scaled_entry(t: u8, scale: u16) -> u8 {
    let v = (t as int * scale as int + 50) / 100;
    if v < 1 {
        1
    } else if v > 255 {
        255
    } else {
        v as u8
    }
}

/// The scale of a quality level; levels above 7 count as 7.
pub open spec fn quality_scale(quality: u8) -> u16 {
    DQT_SCALES@[if quality > 7 {
        7
    } else {
        quality as int
    }]
}

/// A quantisation table with its entries scaled.
pub open spec fn scaled_table(table: Seq<u8>, quality: u8) -> Seq<u8> {
    Seq::new(
        65,
        |i: int|
            if i == 0 {
                table[0]
            } else {
                scaled_entry(table[i], quality_scale(quality))
            },
    )
}

/// Quality-scale a 65-byte DQT (table-id + 64 zig-zag coefficients) using the
/// SSDV scale table.
pub fn scale_dqt(table: &[u8; 65], quality: u8) -> (out: [u8; 65])
    ensures
        out@ == scaled_table(table@, quality),
{
    let q: usize = if quality > 7 {
        7
    } else {
        quality as usize
    };
    let scale: u16 = DQT_SCALES[q];
    let mut out: [u8; 65] = [0u8; 65];
    out[0] = table[0];
    let mut i: usize = 1;
    while i < 65
        invariant
            1 <= i <= 65,
            scale == quality_scale(quality),
            out@[0] == table@[0],
            forall|j: int|
                1 <= j < i ==> #[trigger] out@[j] == scaled_entry(
                    table@[j],
                    quality_scale(quality),
                ),
        decreases 65 - i,
    {
        assert(0 <= table@[i as int] * scale <= 255 * 65535) by (nonlinear_arith)
            requires
                0 <= table@[i as int] <= 255,
                0 <= scale <= 65535,
        ;
        let mut t: u32 = (table[i] as u32 * scale as u32 + 50) / 100;
        if t == 0 {
            t = 1;
        }
        if t > 255 {
            t = 255;
        }
        out[i] = t as u8;
        i = i + 1;
    }
    assert(out@ =~= scaled_table(table@, quality));
    out
}

/// A marker segment: the marker, the length and the data.
pub open spec fn segment(marker: u8, data: Seq<u8>) -> Seq<u8> {
    let len = data.len() + 2;
    seq![0xFFu8, marker, (len / 256) as u8, (len % 256) as u8] + data
}

/// The sampling factors of the luma component.
pub open spec fn sampling(mcu_mode: u8) -> u8 {
    if mcu_mode == 1 {
        0x12
    } else if mcu_mode == 2 {
        0x21
    } else if mcu_mode == 3 {
        0x11
    } else {
        0x22
    }
}

/// The frame header: 8 bits per sample, the size and the three components.
pub open spec fn frame_header(width: u16, height: u16, mcu_mode: u8) -> Seq<u8> {
    seq![
        8u8,
        (height / 256) as u8,
        (height % 256) as u8,
        (width / 256) as u8,
        (width % 256) as u8,
        3u8,
        1u8,
        sampling(mcu_mode),
        0u8,
        2u8,
        0x11u8,
        1u8,
        3u8,
        0x11u8,
        1u8,
    ]
}

/// Everything before the scan data.
#[verifier::opaque]
pub open spec fn headers(width: u16, height: u16, mcu_mode: u8, quality: u8) -> Seq<u8> {
    seq![0xFFu8, 0xD8u8] + segment(0xE0, APP0_DATA@) + segment(
        0xDB,
        scaled_table(STD_DQT0@, quality),
    ) + segment(0xDB, scaled_table(STD_DQT1@, quality)) + segment(
        0xC0,
        frame_header(width, height, mcu_mode),
    ) + segment(0xC4, STD_DHT00@) + segment(0xC4, STD_DHT10@) + segment(0xC4, STD_DHT01@) + segment(
        0xC4,
        STD_DHT11@,
    ) + segment(0xDA, SOS_DATA@)
}

/// The number of luma blocks of an MCU.
pub open spec fn luma_parts(mcu_mode: u8) -> nat {
    let m = mcu_mode % 4;
    if m == 0 {
        4
    } else if m == 3 {
        1
    } else {
        2
    }
}

/// The number of MCUs, of an image of `a` times `b` squares of 16 pixels.
pub open spec fn image_mcus(a: u8, b: u8, mcu_mode: u8) -> nat {
    let m = mcu_mode % 4;
    if m == 0 {
        a as nat * b as nat
    } else if m == 3 {
        4 * (a as nat * b as nat)
    } else {
        2 * (a as nat * b as nat)
    }
}

/// The state of the re-encoder.
#[verifier::ext_equal]
pub struct ScanState {
    /// The headers, once the first packet has come.
    pub head: Seq<u8>,
    pub started: bool,
    /// The scan data.
    pub out: SinkState,
    /// Whether the bits of a coefficient come next, or a code.
    pub int_next: bool,
    /// The bits that came and were not used yet: the `worklen` low bits of `work`.
    pub work: nat,
    pub worklen: nat,
    pub ycparts: nat,
    pub mcu_count: nat,
    pub mcu_id: nat,
    /// The block within the MCU, its component, and the coefficient within it.
    pub mcupart: nat,
    pub component: nat,
    pub acpart: nat,
    pub accrle: nat,
    pub acrle: nat,
    pub needbits: nat,
    /// The last DC value of each component.
    pub dc: Seq<int>,
    /// The MCU at which DC values are absolute, and the next such.
    pub reset_mcu: nat,
    pub next_reset_mcu: nat,
    pub expect: nat,
}

/// Nothing has come yet.
pub open spec fn initial() -> ScanState {
    ScanState {
        head: Seq::empty(),
        started: false,
        out: SinkState { out: Seq::empty(), bits: 0, len: 0 },
        int_next: false,
        work: 0,
        worklen: 0,
        ycparts: 0,
        mcu_count: 0,
        mcu_id: 0,
        mcupart: 0,
        component: 0,
        acpart: 0,
        accrle: 0,
        acrle: 0,
        needbits: 0,
        dc: seq![0int, 0int, 0int],
        reset_mcu: 0,
        next_reset_mcu: 0,
        expect: 0,
    }
}

/// The table for the kind of coefficient and the component.
pub open spec fn table_for(ac: bool, chroma: bool) -> Table {
    if ac {
        if chroma {
            Table::AcChroma
        } else {
            Table::AcLuma
        }
    } else {
        if chroma {
            Table::DcChroma
        } else {
            Table::DcLuma
        }
    }
}

/// Write a run of zeros and a coefficient: the code of the run and the width,
/// where the table has one, and the bits of the coefficient.
pub open spec fn put_int(
    out: SinkState,
    ac: bool,
    chroma: bool,
    rle: nat,
    value: int,
) -> SinkState {
    let (bits, width) = int_code(value);
    let coded = match code_of(table_bytes(table_for(ac, chroma)), (16 * rle + width % 16) as u8) {
        Some((c, w)) => put(out, c, w),
        None => out,
    };
    put(coded, bits, width)
}

/// The component of a block of an MCU.
pub open spec fn component_of(mcupart: nat, ycparts: nat) -> nat {
    if mcupart < ycparts {
        0
    } else {
        (mcupart - ycparts + 1) as nat
    }
}

/// What a step leads to.
#[derive(Debug, Clone, Copy, PartialEq, Eq, Structural)]
pub enum StepResult {
    /// There may be more to do with the bits at hand.
    More,
    /// More bits are needed.
    FeedMe,
    /// The last MCU is complete.
    Eoi,
    /// The bits start with no code.
    Bad,
}

/// The DC value is absolute here.
pub open spec fn at_reset(s: ScanState) -> bool {
    s.reset_mcu == s.mcu_id && (s.mcupart == 0 || s.mcupart >= s.ycparts)
}

/// Drop the first `k` of the bits at hand.
pub open spec fn consume(s: ScanState, k: nat) -> ScanState {
    let rest = (s.worklen - k) as nat;
    ScanState { work: s.work % pow2(rest), worklen: rest, ..s }
}

/// Go on to the next block, and to the next MCU, when a block is complete.
pub open spec fn advance(s: ScanState) -> (ScanState, StepResult) {
    if s.acpart < 64 {
        (s, StepResult::More)
    } else {
        let last = s.mcupart + 1 == s.ycparts + 2;
        let part: nat = if last {
            0
        } else {
            s.mcupart + 1
        };
        let id = if last {
            s.mcu_id + 1
        } else {
            s.mcu_id
        };
        if last && id >= s.mcu_count {
            (ScanState { mcupart: part, mcu_id: id, out: synced(s.out), ..s }, StepResult::Eoi)
        } else {
            (
                ScanState {
                    mcupart: part,
                    mcu_id: id,
                    component: component_of(part, s.ycparts),
                    acpart: 0,
                    accrle: 0,
                    ..s
                },
                StepResult::More,
            )
        }
    }
}

/// Latch the next reset MCU at the start of an MCU.
pub open spec fn latched(s: ScanState) -> ScanState {
    if s.mcupart == 0 && s.acpart == 0 && s.next_reset_mcu > s.reset_mcu {
        ScanState { reset_mcu: s.next_reset_mcu, ..s }
    } else {
        s
    }
}

/// What a DC code stands for.
pub open spec fn dc_symbol(s: ScanState, symbol: u8) -> ScanState {
    let chroma = s.component != 0;
    if symbol != 0 {
        ScanState { int_next: true, needbits: symbol as nat, ..s }
    } else if at_reset(s) {
        let c = s.component as int;
        ScanState {
            out: put_int(s.out, false, chroma, 0, -s.dc[c]),
            dc: s.dc.update(c, 0),
            acpart: 1,
            ..s
        }
    } else {
        ScanState { out: put_int(s.out, false, chroma, 0, 0), acpart: 1, ..s }
    }
}

/// What an AC code stands for.
pub open spec fn ac_symbol(s: ScanState, symbol: u8) -> ScanState {
    let chroma = s.component != 0;
    if symbol == 0 {
        ScanState { out: put_int(s.out, true, chroma, 0, 0), acpart: 64, acrle: 0, ..s }
    } else if symbol == 0xF0 {
        ScanState { out: put_int(s.out, true, chroma, 15, 0), acpart: s.acpart + 16, acrle: 0, ..s }
    } else {
        ScanState {
            int_next: true,
            acrle: (symbol / 16) as nat,
            acpart: s.acpart + (symbol / 16) as nat,
            needbits: (symbol % 16) as nat,
            ..s
        }
    }
}

/// Take a code from the bits at hand.
pub open spec fn huff_step(s0: ScanState) -> (ScanState, StepResult) {
    let s = latched(s0);
    let table = table_bytes(table_for(s.acpart != 0, s.component != 0));
    match lookup(table, s.work, s.worklen) {
        None => (s, StepResult::FeedMe),
        Some((symbol, width)) => if width == 0 {
            (s, StepResult::Bad)
        } else {
            let t = if s.acpart == 0 {
                dc_symbol(s, symbol)
            } else {
                ac_symbol(s, symbol)
            };
            advance(consume(t, width as nat))
        },
    }
}

/// Write runs of sixteen zeros while there are as many; what is left of the run.
pub open spec fn put_runs(out: SinkState, chroma: bool, run: nat) -> (SinkState, nat)
    decreases run,
{
    if run < 16 {
        (out, run)
    } else {
        put_runs(put_int(out, true, chroma, 15, 0), chroma, (run - 16) as nat)
    }
}

/// A DC coefficient: absolute at a reset, else the difference to the last.
pub open spec fn dc_value(s: ScanState, i: int) -> ScanState {
    let c = s.component as int;
    if at_reset(s) {
        ScanState {
            out: put_int(s.out, false, c != 0, 0, i - s.dc[c]),
            dc: s.dc.update(c, i),
            ..s
        }
    } else {
        ScanState {
            out: put_int(s.out, false, c != 0, 0, i),
            dc: s.dc.update(c, s.dc[c] + i),
            ..s
        }
    }
}

/// An AC coefficient after its run of zeros.
pub open spec fn ac_value(s: ScanState, i: int) -> ScanState {
    let chroma = s.component != 0;
    if i != 0 {
        let (out, run) = put_runs(s.out, chroma, s.accrle + s.acrle);
        ScanState { out: put_int(out, true, chroma, run, i), accrle: 0, ..s }
    } else if s.acpart >= 63 {
        ScanState { out: put_int(s.out, true, chroma, 0, 0), accrle: 0, ..s }
    } else {
        ScanState { accrle: s.accrle + s.acrle + 1, ..s }
    }
}

/// Take the bits of a coefficient.
pub open spec fn int_step(s: ScanState) -> (ScanState, StepResult) {
    if s.worklen < s.needbits {
        (s, StepResult::FeedMe)
    } else {
        let raw = s.work / pow2((s.worklen - s.needbits) as nat);
        let i = int_value(raw as int, s.needbits);
        let t = if s.acpart == 0 {
            dc_value(s, i)
        } else {
            ac_value(s, i)
        };
        advance(consume(ScanState { acpart: t.acpart + 1, int_next: false, ..t }, s.needbits))
    }
}

/// One step.
#[verifier::opaque]
pub open spec fn step(s: ScanState) -> (ScanState, StepResult) {
    if s.int_next {
        int_step(s)
    } else {
        huff_step(s)
    }
}

pub proof fn lemma_progress(s: ScanState)
    ensures
        step(s).1 == StepResult::More ==> step(s).0.worklen < s.worklen || (step(s).0.worklen
            == s.worklen && s.int_next && !step(s).0.int_next),
{
    reveal(step);
    if !s.int_next {
        let l = latched(s);
        let t = table_for(l.acpart != 0, l.component != 0);
        lemma_tables(t);
        lemma_lookup(table_bytes(t), l.work, l.worklen);
    }
}

/// Step until more bits are needed or the packet ends.
pub open spec fn run(s: ScanState) -> (ScanState, StepResult)
    decreases
            s.worklen,
            if s.int_next {
                1int
            } else {
                0int
            },
{
    proof {
        lemma_progress(s);
    }
    let (t, r) = step(s);
    if r == StepResult::More {
        run(t)
    } else {
        (t, r)
    }
}

/// A block of zeros.
pub open spec fn put_blank(out: SinkState, chroma: bool) -> SinkState {
    put_int(put_int(out, false, chroma, 0, 0), true, chroma, 0, 0)
}

/// The blocks of an MCU from `part` on, all zeros.
pub open spec fn put_blanks(out: SinkState, part: nat, ycparts: nat) -> SinkState
    decreases ycparts + 2 - part,
{
    if part >= ycparts + 2 {
        out
    } else {
        put_blanks(put_blank(out, part >= ycparts), part + 1, ycparts)
    }
}

/// `n` MCUs of zeros.
pub open spec fn put_blank_mcus(out: SinkState, n: nat, ycparts: nat) -> SinkState
    decreases n,
{
    if n == 0 {
        out
    } else {
        put_blank_mcus(put_blanks(out, 0, ycparts), (n - 1) as nat, ycparts)
    }
}

/// Complete the MCU that was begun, with zeros, and go on to MCU `next`. The DC
/// values stay: the next packet starts with absolute ones.
#[verifier::opaque]
pub open spec fn fill_gap(s: ScanState, next: nat) -> ScanState {
    let partial = s.mcupart > 0 || s.acpart > 0;
    let ended = if s.acpart > 0 {
        put_int(s.out, true, s.component != 0, 0, 0)
    } else {
        s.out
    };
    let part = if s.acpart > 0 {
        s.mcupart + 1
    } else {
        s.mcupart
    };
    let out = if partial {
        put_blanks(ended, part, s.ycparts)
    } else {
        s.out
    };
    let id = if partial {
        s.mcu_id + 1
    } else {
        s.mcu_id
    };
    let n: nat = if id < next {
        (next - id) as nat
    } else {
        0
    };
    ScanState {
        out: put_blank_mcus(out, n, s.ycparts),
        mcu_id: id + n,
        mcupart: 0,
        acpart: 0,
        component: 0,
        accrle: 0,
        ..s
    }
}

/// A byte joins the bits at hand.
pub open spec fn with_byte(s: ScanState, b: u8) -> ScanState {
    ScanState { work: 256 * s.work + b as nat, worklen: s.worklen + 8, ..s }
}

/// No bits are at hand.
pub open spec fn without_bits(s: ScanState) -> ScanState {
    ScanState { work: 0, worklen: 0, ..s }
}

/// Take the payload from byte `i` on; whether all of it was taken. The first MCU
/// of a packet is byte-aligned, and has to be the one that is due.
#[verifier::opaque]
pub open spec fn feed_bytes(s: ScanState, payload: Seq<u8>, i: nat, offset: nat) -> (
    ScanState,
    bool,
)
    decreases payload.len() - i,
{
    if i >= payload.len() {
        (s, true)
    } else {
        let t = if i == offset {
            without_bits(s)
        } else {
            s
        };
        if i == offset && t.mcu_id != t.next_reset_mcu {
            (t, false)
        } else {
            let (u, r) = run(with_byte(t, payload[i as int]));
            match r {
                StepResult::FeedMe => feed_bytes(u, payload, i + 1, offset),
                StepResult::Bad => (without_bits(u), false),
                _ => (u, false),
            }
        }
    }
}

/// The first packet gives the geometry.
pub open spec fn begun(s: ScanState, p: PacketModel) -> ScanState {
    if s.started {
        s
    } else {
        ScanState {
            head: headers(p.width, p.height, p.mcu_mode, p.quality),
            started: true,
            ycparts: luma_parts(p.mcu_mode),
            mcu_count: image_mcus(p.raw[9], p.raw[10], p.mcu_mode),
            expect: 0,
            ..s
        }
    }
}

/// The packet says which MCU its first is.
pub open spec fn announced(s: ScanState, p: PacketModel) -> ScanState {
    if p.mcu_id != 0xFFFF {
        ScanState { next_reset_mcu: p.mcu_id as nat, ..s }
    } else {
        s
    }
}

/// Fill up to the first MCU of a packet that is ahead of the one expected.
pub open spec fn caught_up(s: ScanState, p: PacketModel) -> ScanState {
    if p.packet_id != s.expect {
        ScanState {
            int_next: false,
            expect: p.packet_id as nat,
            ..fill_gap(s, p.mcu_id as nat)
        }
    } else {
        s
    }
}

/// Take the payload from byte `from` on; the next packet is expected when all of
/// it was taken.
pub open spec fn payload_taken(s: ScanState, p: PacketModel, from: nat) -> ScanState {
    let (u, done) = feed_bytes(s, p.payload, from, p.mcu_offset as nat);
    if done {
        ScanState { expect: ((p.packet_id + 1) % 0x1_0000) as nat, ..u }
    } else {
        u
    }
}

/// The state after a packet. A packet before the one expected is dropped; one
/// after it is preceded by filling, if it says where its first MCU belongs.
pub open spec fn fed(s0: ScanState, p: PacketModel) -> ScanState {
    let s = announced(begun(s0, p), p);
    if p.packet_id < s.expect || (p.packet_id > s.expect && p.mcu_id == 0xFFFF) {
        s
    } else {
        payload_taken(
            caught_up(s, p),
            p,
            if p.packet_id != s.expect {
                p.mcu_offset as nat
            } else {
                0
            },
        )
    }
}

/// The scan data, with the missing MCUs filled and the last byte completed.
pub open spec fn scan_data(s: ScanState) -> Seq<u8> {
    let t = if s.mcu_id < s.mcu_count {
        fill_gap(s, s.mcu_count)
    } else {
        s
    };
    synced(t.out).out
}

/// The JPEG file; nothing when no packet came.
pub open spec fn jpeg_of(s: ScanState) -> Seq<u8> {
    if !s.started {
        Seq::empty()
    } else {
        s.head + scan_data(s) + seq![0xFFu8, 0xD9u8]
    }
}

/// Bits that are certain to be used between the end of an image and the next
/// such end.
spec fn used(mcupart: nat, acpart: nat, int_next: bool) -> nat {
    let bits: nat = if mcupart == 0 {
        0
    } else if acpart == 0 {
        (4 * (mcupart - 1)) as nat + if int_next {
            2nat
        } else {
            0
        }
    } else {
        (4 * (mcupart - 1)) as nat + 2 + 2 * ((acpart + if int_next {
            15nat
        } else {
            14
        }) / 16)
    };
    if bits > 8 {
        8
    } else {
        bits
    }
}

/// The number of DC values of the luma component so far.
spec fn luma_values(s: ScanState) -> int {
    s.ycparts * s.mcu_id + if s.mcupart < s.ycparts {
        s.mcupart + if s.acpart > 0 {
            1int
        } else {
            0
        }
    } else {
        s.ycparts as int
    }
}

/// The number of DC values of a chroma component so far.
spec fn chroma_values(s: ScanState, c: int) -> int {
    s.mcu_id + if s.mcupart > s.ycparts + c - 1 || (s.mcupart == s.ycparts + c - 1 && s.acpart
        > 0) {
        1int
    } else {
        0
    }
}

spec fn within(v: int, bound: int) -> bool {
    -bound <= v <= bound
}

/// What holds between steps and within a step; `limit` bounds the MCU number.
spec fn bounded(s: ScanState, limit: nat) -> bool {
    &&& s.started
    &&& 1 <= s.ycparts <= 4
    &&& s.mcu_count <= limit
    &&& s.mcu_id <= limit
    &&& s.mcupart < s.ycparts + 2
    &&& s.component <= 2
    &&& s.acpart <= 96
    &&& s.accrle <= 96
    &&& s.acrle <= 15
    &&& s.needbits <= 11
    &&& s.work < pow2(s.worklen)
    &&& s.dc.len() == 3
    &&& within(s.dc[0], 2047 * luma_values(s))
    &&& within(s.dc[1], 2047 * chroma_values(s, 1))
    &&& within(s.dc[2], 2047 * chroma_values(s, 2))
    &&& s.acpart == 0 ==> s.component == component_of(s.mcupart, s.ycparts)
    &&& s.reset_mcu <= 0xFFFF
    &&& s.next_reset_mcu <= 0xFFFF
    &&& s.expect <= 0xFFFF
}

/// The run of zeros is no longer than the coefficients passed.
spec fn run_fits(s: ScanState) -> bool {
    s.accrle + (if s.int_next && s.acpart > 0 {
        s.acrle
    } else {
        0
    }) <= s.acpart
}

/// What holds between steps.
spec fn sane(s: ScanState, limit: nat) -> bool {
    &&& bounded(s, limit)
    &&& run_fits(s)
    &&& s.acpart <= if s.mcupart == 0 {
        80int
    } else {
        63
    }
    &&& s.worklen + used(s.mcupart, s.acpart, s.int_next) <= 31
}

/// What holds when a step has taken its bits.
spec fn taken(s: ScanState, limit: nat) -> bool {
    &&& bounded(s, limit)
    &&& s.mcupart > 0 ==> s.acpart <= 79
    &&& s.mcupart > 0 || s.acpart < 64 ==> run_fits(s)
    &&& s.acpart < 64 ==> s.worklen + used(s.mcupart, s.acpart, s.int_next) <= 31
    &&& s.acpart >= 64 ==> s.worklen + used(s.mcupart + 1, 0, s.int_next) <= 31
}

/// Few enough MCUs for the DC values to fit.
spec fn roomy(s: ScanState, limit: nat) -> bool {
    s.ycparts * (limit + 2) <= 1_000_000
}

/// Both states are of one image.
spec fn same_image(s: ScanState, t: ScanState) -> bool {
    &&& s.head == t.head
    &&& s.started == t.started
    &&& s.ycparts == t.ycparts
    &&& s.mcu_count == t.mcu_count
}

/// What holds between packets.
spec fn at_rest(s: ScanState) -> bool {
    s.worklen <= 15 || (s.worklen <= 23 && s.mcupart == 0)
}

proof fn lemma_dc_fits(s: ScanState, limit: nat)
    requires
        bounded(s, limit),
        roomy(s, limit),
    ensures
        within(s.dc[0], 2_047_000_000),
        within(s.dc[1], 2_047_000_000),
        within(s.dc[2], 2_047_000_000),
{
    assert(s.ycparts * s.mcu_id + s.ycparts <= s.ycparts * (limit + 2)) by (nonlinear_arith)
        requires
            s.mcu_id <= limit,
            s.ycparts >= 1,
    ;
    assert(s.mcu_id + 1 <= s.ycparts * (limit + 2)) by (nonlinear_arith)
        requires
            s.mcu_id <= limit,
            s.ycparts >= 1,
    ;
}

/// The state after a code is in order.
proof fn lemma_code_taken(s: ScanState, limit: nat, symbol: u8, width: nat)
    requires
        sane(s, limit),
        !s.int_next,
        2 <= width <= s.worklen,
        s.acpart == 0 ==> symbol <= 11,
        s.acpart != 0 ==> symbol % 16 <= 10,
    ensures
        taken(
            consume(
                if s.acpart == 0 {
                    dc_symbol(s, symbol)
                } else {
                    ac_symbol(s, symbol)
                },
                width,
            ),
            limit,
        ),
{
    let rest = (s.worklen - width) as nat;
    lemma_pow2_pos(rest);
    lemma_mod_bound(s.work as int, pow2(rest) as int);
    assert(0 <= s.ycparts * s.mcu_id) by (nonlinear_arith)
        requires
            s.ycparts >= 0,
            s.mcu_id >= 0,
    ;
}

/// The state after a coefficient is in order.
proof fn lemma_value_taken(s: ScanState, limit: nat, i: int)
    requires
        sane(s, limit),
        s.int_next,
        s.needbits <= s.worklen,
        within(i, 2047),
    ensures
        ({
            let t = if s.acpart == 0 {
                dc_value(s, i)
            } else {
                ac_value(s, i)
            };
            taken(
                consume(
                    ScanState { acpart: t.acpart + 1, int_next: false, ..t },
                    s.needbits,
                ),
                limit,
            )
        }),
{
    let rest = (s.worklen - s.needbits) as nat;
    lemma_pow2_pos(rest);
    lemma_mod_bound(s.work as int, pow2(rest) as int);
    assert(0 <= s.ycparts * s.mcu_id) by (nonlinear_arith)
        requires
            s.ycparts >= 0,
            s.mcu_id >= 0,
    ;
}

/// Write a run of zeros and a coefficient.
fn emit(sink: &mut BitSink, ac: bool, chroma: bool, rle: u8, value: i32)
    requires
        old(sink).wf(),
        rle < 16,
        value > i32::MIN,
    ensures
        final(sink).wf(),
        final(sink)@ == put_int(old(sink)@, ac, chroma, rle as nat, value as int),
{
    let (intbits, intlen) = jpeg_encode_int(value);
    proof {
        lemma2_to64();
        lemma_bit_width_bound(magnitude(value as int), 31);
        lemma_bit_width(magnitude(value as int));
    }
    let symbol: u8 = 16 * rle + intlen % 16;
    let table: Table = if ac {
        if chroma {
            Table::AcChroma
        } else {
            Table::AcLuma
        }
    } else {
        if chroma {
            Table::DcChroma
        } else {
            Table::DcLuma
        }
    };
    match table_encode(table, symbol) {
        Some((huff_bits, huff_len)) => {
            sink.outbits(huff_bits as u32, huff_len);
        },
        None => {},
    }
    sink.outbits(intbits as u32, intlen);
}

/// A block of zeros.
fn emit_blank(sink: &mut BitSink, chroma: bool)
    requires
        old(sink).wf(),
    ensures
        final(sink).wf(),
        final(sink)@ == put_blank(old(sink)@, chroma),
{
    emit(sink, false, chroma, 0, 0);
    emit(sink, true, chroma, 0, 0);
}

/// The blocks of an MCU from `from` on, all zeros.
fn emit_blanks(sink: &mut BitSink, from: u8, ycparts: u8)
    requires
        old(sink).wf(),
        ycparts <= 4,
        from <= ycparts + 2,
    ensures
        final(sink).wf(),
        final(sink)@ == put_blanks(old(sink)@, from as nat, ycparts as nat),
{
    let mut part: u8 = from;
    while part < ycparts + 2
        invariant
            sink.wf(),
            ycparts <= 4,
            part <= ycparts + 2,
            put_blanks(old(sink)@, from as nat, ycparts as nat) == put_blanks(
                sink@,
                part as nat,
                ycparts as nat,
            ),
        decreases ycparts + 2 - part,
    {
        emit_blank(sink, part >= ycparts);
        part = part + 1;
    }
}

/// Append a marker segment.
fn write_marker(out: &mut Vec<u8>, marker: u8, data: &[u8])
    requires
        data@.len() <= 1000,
    ensures
        final(out)@ == old(out)@ + segment(marker, data@),
{
    let len: usize = data.len() + 2;
    let ghost before = out@;
    out.push(0xFF);
    out.push(marker);
    out.push((len / 256) as u8);
    out.push((len % 256) as u8);
    append_slice(out, data);
    assert(out@ =~= before + segment(marker, data@));
}

fn sof0_segment(width: u16, height: u16, mcu_mode: u8) -> (out: [u8; 15])
    ensures
        out@ == frame_header(width, height, mcu_mode),
{
    let yh_yv: u8 = if mcu_mode == 1 {
        0x12
    } else if mcu_mode == 2 {
        0x21
    } else if mcu_mode == 3 {
        0x11
    } else {
        0x22
    };
    let out: [u8; 15] = [
        8,
        (height / 256) as u8,
        (height % 256) as u8,
        (width / 256) as u8,
        (width % 256) as u8,
        3,
        1,
        yh_yv,
        0x00,
        2,
        0x11,
        0x01,
        3,
        0x11,
        0x01,
    ];
    assert(out@ =~= frame_header(width, height, mcu_mode));
    out
}

fn write_headers(p: &SsdvPacket) -> (out: Vec<u8>)
    ensures
        out@ == headers(p.width, p.height, p.mcu_mode, p.quality),
{
    proof {
        reveal(headers);
    }
    let dqt0: [u8; 65] = scale_dqt(&STD_DQT0, p.quality);
    let dqt1: [u8; 65] = scale_dqt(&STD_DQT1, p.quality);
    let sof0: [u8; 15] = sof0_segment(p.width, p.height, p.mcu_mode);
    let mut out: Vec<u8> = Vec::new();
    out.push(0xFF);
    out.push(0xD8);
    assert(out@ =~= seq![0xFFu8, 0xD8u8]);
    write_marker(&mut out, 0xE0, &APP0_DATA);
    write_marker(&mut out, 0xDB, &dqt0);
    write_marker(&mut out, 0xDB, &dqt1);
    write_marker(&mut out, 0xC0, &sof0);
    write_marker(&mut out, 0xC4, &STD_DHT00);
    write_marker(&mut out, 0xC4, &STD_DHT10);
    write_marker(&mut out, 0xC4, &STD_DHT01);
    write_marker(&mut out, 0xC4, &STD_DHT11);
    write_marker(&mut out, 0xDA, &SOS_DATA);
    out
}

/// Builds a JPEG byte stream from a sequence of decoded SSDV packets.
///
/// Use [`JpegBuilder::feed_packet`] for each packet in `packet_id` order (gaps
/// are tolerated and filled), then call [`JpegBuilder::finish`] to produce the
/// complete JPEG.
pub struct JpegBuilder {
    head: Vec<u8>,
    headers_written: bool,
    sink: BitSink,
    int_next: bool,
    workbits: u32,
    worklen: u32,
    ycparts: u8,
    mcu_count: u32,
    mcu_id: u32,
    mcupart: u8,
    component: u8,
    acpart: u8,
    accrle: u8,
    acrle: u8,
    needbits: u8,
    dc: [i32; 3],
    reset_mcu: u32,
    next_reset_mcu: u32,
    expect_packet_id: u16,
    fed: Ghost<nat>,
}

impl JpegBuilder {
    /// The state of the builder.
    pub closed spec fn view(&self) -> ScanState {
        ScanState {
            head: self.head@,
            started: self.headers_written,
            out: self.sink@,
            int_next: self.int_next,
            work: self.workbits as nat,
            worklen: self.worklen as nat,
            ycparts: self.ycparts as nat,
            mcu_count: self.mcu_count as nat,
            mcu_id: self.mcu_id as nat,
            mcupart: self.mcupart as nat,
            component: self.component as nat,
            acpart: self.acpart as nat,
            accrle: self.accrle as nat,
            acrle: self.acrle as nat,
            needbits: self.needbits as nat,
            dc: seq![self.dc@[0] as int, self.dc@[1] as int, self.dc@[2] as int],
            reset_mcu: self.reset_mcu as nat,
            next_reset_mcu: self.next_reset_mcu as nat,
            expect: self.expect_packet_id as nat,
        }
    }

    /// How many packets were fed.
    pub closed spec fn packets_fed(&self) -> nat {
        self.fed@
    }

    spec fn limit(&self) -> nat {
        (if self.mcu_count > 0xFFFF {
            self.mcu_count as nat
        } else {
            0xFFFF
        }) + 2 * self.fed@
    }

    /// The state is one that packets lead to.
    pub closed spec fn wf(&self) -> bool {
        &&& self.sink.wf()
        &&& if self.headers_written {
            &&& sane(self@, self.limit())
            &&& at_rest(self@)
            &&& self.ycparts * self.mcu_count <= 260100
            &&& self.mcu_count <= 260100
        } else {
            self@ == initial()
        }
    }

    /// Construct a new builder. The first call to [`JpegBuilder::feed_packet`]
    /// latches the image geometry and emits the JPEG headers.
    pub fn new() -> (b: Self)
        ensures
            b.wf(),
            b@ == initial(),
            b.packets_fed() == 0,
    {
        let b = JpegBuilder {
            head: Vec::new(),
            headers_written: false,
            sink: BitSink::new(),
            int_next: false,
            workbits: 0,
            worklen: 0,
            ycparts: 0,
            mcu_count: 0,
            mcu_id: 0,
            mcupart: 0,
            component: 0,
            acpart: 0,
            accrle: 0,
            acrle: 0,
            needbits: 0,
            dc: [0, 0, 0],
            reset_mcu: 0,
            next_reset_mcu: 0,
            expect_packet_id: 0,
            fed: Ghost(0),
        };
        assert(b@ =~= initial());
        b
    }

    fn advance_mcu_if_complete(&mut self, Ghost(limit): Ghost<nat>) -> (r: StepResult)
        requires
            old(self).sink.wf(),
            taken(old(self)@, limit),
            roomy(old(self)@, limit),
        ensures
            final(self).sink.wf(),
            final(self).fed == old(self).fed,
            (final(self)@, r) == advance(old(self)@),
            r == StepResult::More ==> sane(final(self)@, limit),
            r == StepResult::Eoi ==> sane(final(self)@, limit + 1) && final(self)@.worklen <= 23
                && final(self)@.mcupart == 0,
    {
        if self.acpart < 64 {
            return StepResult::More;
        }
        proof {
            let y = self.ycparts as int;
            let m = self.mcu_id as int;
            assert(y * (m + 1) == y * m + y) by (nonlinear_arith);
            assert(m + 2 <= 1_000_000) by (nonlinear_arith)
                requires
                    y >= 1,
                    0 <= m <= limit,
                    y * (limit + 2) <= 1_000_000,
            ;
        }
        self.mcupart = self.mcupart + 1;
        if self.mcupart == self.ycparts + 2 {
            self.mcupart = 0;
            self.mcu_id = self.mcu_id + 1;
            if self.mcu_id >= self.mcu_count {
                self.sink.outbits_sync();
                return StepResult::Eoi;
            }
        }
        if self.mcupart < self.ycparts {
            self.component = 0;
        } else {
            self.component = self.mcupart - self.ycparts + 1;
        }
        self.acpart = 0;
        self.accrle = 0;
        StepResult::More
    }

    fn drop_bits(&mut self, k: u8)
        requires
            k <= old(self).worklen <= 31,
        ensures
            final(self)@ == consume(old(self)@, k as nat),
            final(self).sink == old(self).sink,
            final(self).fed == old(self).fed,
            final(self)@.work < pow2(final(self)@.worklen),
    {
        self.worklen = self.worklen - k as u32;
        let rest: u64 = two_pow(self.worklen);
        proof {
            lemma_mod_bound(self.workbits as int, rest as int);
            lemma_mod_decreases(self.workbits as nat, rest as nat);
        }
        self.workbits = (self.workbits as u64 % rest) as u32;
    }

    fn process_huff(&mut self, Ghost(limit): Ghost<nat>) -> (r: StepResult)
        requires
            old(self).sink.wf(),
            sane(old(self)@, limit),
            roomy(old(self)@, limit),
            !old(self)@.int_next,
        ensures
            final(self).sink.wf(),
            final(self).fed == old(self).fed,
            (final(self)@, r) == huff_step(old(self)@),
            r == StepResult::Eoi ==> sane(final(self)@, limit + 1) && final(self)@.worklen <= 23
                && final(self)@.mcupart == 0,
            r != StepResult::Eoi ==> sane(final(self)@, limit),
            r == StepResult::FeedMe ==> final(self)@.worklen <= 15,
    {
        if self.mcupart == 0 && self.acpart == 0 && self.next_reset_mcu > self.reset_mcu {
            self.reset_mcu = self.next_reset_mcu;
        }
        let ghost s = self@;
        assert(s =~= latched(old(self)@));
        let ac: bool = self.acpart != 0;
        let chroma: bool = self.component != 0;
        let table: Table = if ac {
            if chroma {
                Table::AcChroma
            } else {
                Table::AcLuma
            }
        } else {
            if chroma {
                Table::DcChroma
            } else {
                Table::DcLuma
            }
        };
        assert(table == table_for(ac, chroma));
        proof {
            lemma_tables(table);
            lemma_lookup(table_bytes(table), s.work, s.worklen);
            lemma_symbols(table, s.work, s.worklen);
            lemma_dc_fits(s, limit);
        }
        match table_lookup(table, self.workbits, self.worklen as u8) {
            None => StepResult::FeedMe,
            Some((symbol, width)) => {
                if width == 0 {
                    return StepResult::Bad;
                }
                if !ac {
                    if symbol == 0 {
                        if self.reset_mcu == self.mcu_id && (self.mcupart == 0 || self.mcupart
                            >= self.ycparts) {
                            let comp: usize = self.component as usize;
                            let value: i32 = 0 - self.dc[comp];
                            emit(&mut self.sink, false, chroma, 0, value);
                            self.dc[comp] = 0;
                        } else {
                            emit(&mut self.sink, false, chroma, 0, 0);
                        }
                        self.acpart = 1;
                    } else {
                        self.int_next = true;
                        self.needbits = symbol;
                    }
                    assert(self@ =~= dc_symbol(s, symbol));
                } else {
                    self.acrle = 0;
                    if symbol == 0 {
                        emit(&mut self.sink, true, chroma, 0, 0);
                        self.acpart = 64;
                    } else if symbol == 0xF0 {
                        emit(&mut self.sink, true, chroma, 15, 0);
                        self.acpart = self.acpart + 16;
                    } else {
                        self.int_next = true;
                        self.acrle = symbol / 16;
                        self.acpart = self.acpart + self.acrle;
                        self.needbits = symbol % 16;
                    }
                    assert(self@ =~= ac_symbol(s, symbol));
                }
                proof {
                    lemma_code_taken(s, limit, symbol, width as nat);
                }
                self.drop_bits(width);
                self.advance_mcu_if_complete(Ghost(limit))
            },
        }
    }

    fn process_int(&mut self, Ghost(limit): Ghost<nat>) -> (r: StepResult)
        requires
            old(self).sink.wf(),
            sane(old(self)@, limit),
            roomy(old(self)@, limit),
            old(self)@.int_next,
        ensures
            final(self).sink.wf(),
            final(self).fed == old(self).fed,
            (final(self)@, r) == int_step(old(self)@),
            r == StepResult::Eoi ==> sane(final(self)@, limit + 1) && final(self)@.worklen <= 23
                && final(self)@.mcupart == 0,
            r != StepResult::Eoi ==> sane(final(self)@, limit),
            r == StepResult::FeedMe ==> final(self)@.worklen <= 15,
    {
        if self.worklen < self.needbits as u32 {
            return StepResult::FeedMe;
        }
        let ghost s = self@;
        let divisor: u64 = two_pow(self.worklen - self.needbits as u32);
        let raw: u64 = self.workbits as u64 / divisor;
        proof {
            lemma2_to64();
            lemma_pow2_adds((self.worklen - self.needbits) as nat, self.needbits as nat);
            lemma_fundamental_div_mod(self.workbits as int, divisor as int);
            assert(raw < pow2(self.needbits as nat)) by (nonlinear_arith)
                requires
                    self.workbits == divisor * raw + self.workbits as int % divisor as int,
                    self.workbits as int % divisor as int >= 0,
                    self.workbits < divisor * pow2(self.needbits as nat),
                    divisor > 0,
            ;
            lemma_int_range(raw as int, self.needbits as nat);
            lemma_dc_fits(s, limit);
            assert(pow2(self.needbits as nat) <= 2048) by {
                lemma_eleven(self.needbits as nat);
            }
        }
        let i: i32 = jpeg_int(raw as i32, self.needbits);
        let chroma: bool = self.component != 0;
        if self.acpart == 0 {
            let comp: usize = self.component as usize;
            if self.reset_mcu == self.mcu_id && (self.mcupart == 0 || self.mcupart
                >= self.ycparts) {
                let value: i32 = i - self.dc[comp];
                emit(&mut self.sink, false, chroma, 0, value);
                self.dc[comp] = i;
            } else {
                let value: i32 = self.dc[comp] + i;
                self.dc[comp] = value;
                emit(&mut self.sink, false, chroma, 0, i);
            }
            assert(self@ =~= dc_value(s, i as int));
        } else {
            if i != 0 {
                self.accrle = self.accrle + self.acrle;
                let ghost goal = put_runs(self.sink@, chroma, self.accrle as nat);
                let ghost mid = self@;
                let ghost fed = self.fed@;
                while self.accrle >= 16
                    invariant
                        self.sink.wf(),
                        self.fed@ == fed,
                        self@ == (ScanState { out: self.sink@, accrle: self.accrle as nat, ..mid }),
                        goal == put_runs(self.sink@, chroma, self.accrle as nat),
                    decreases self.accrle,
                {
                    emit(&mut self.sink, true, chroma, 15, 0);
                    self.accrle = self.accrle - 16;
                }
                let run: u8 = self.accrle;
                emit(&mut self.sink, true, chroma, run, i);
                self.accrle = 0;
            } else if self.acpart >= 63 {
                emit(&mut self.sink, true, chroma, 0, 0);
                self.accrle = 0;
            } else {
                self.accrle = self.accrle + self.acrle + 1;
            }
            assert(self@ =~= ac_value(s, i as int));
        }
        self.acpart = self.acpart + 1;
        self.int_next = false;
        let need: u8 = self.needbits;
        proof {
            lemma_value_taken(s, limit, i as int);
        }
        self.drop_bits(need);
        self.advance_mcu_if_complete(Ghost(limit))
    }

    fn process(&mut self, Ghost(limit): Ghost<nat>) -> (r: StepResult)
        requires
            old(self).sink.wf(),
            sane(old(self)@, limit),
            roomy(old(self)@, limit),
        ensures
            final(self).sink.wf(),
            final(self).fed == old(self).fed,
            (final(self)@, r) == step(old(self)@),
            same_image(old(self)@, final(self)@),
            r == StepResult::Eoi ==> sane(final(self)@, limit + 1) && final(self)@.worklen <= 23
                && final(self)@.mcupart == 0,
            r != StepResult::Eoi ==> sane(final(self)@, limit),
            r == StepResult::FeedMe ==> final(self)@.worklen <= 15,
    {
        proof {
            reveal(step);
        }
        if self.int_next {
            self.process_int(Ghost(limit))
        } else {
            self.process_huff(Ghost(limit))
        }
    }

    /// Step until more bits are needed or the packet ends.
    fn work_off(&mut self, Ghost(limit): Ghost<nat>) -> (r: StepResult)
        requires
            old(self).sink.wf(),
            sane(old(self)@, limit),
            roomy(old(self)@, limit),
        ensures
            final(self).sink.wf(),
            final(self).fed == old(self).fed,
            (final(self)@, r) == run(old(self)@),
            r != StepResult::More,
            r == StepResult::Eoi ==> sane(final(self)@, limit + 1) && final(self)@.worklen <= 23
                && final(self)@.mcupart == 0,
            r != StepResult::Eoi ==> sane(final(self)@, limit),
            r == StepResult::FeedMe ==> final(self)@.worklen <= 15,
            same_image(old(self)@, final(self)@),
    {
        proof {
            lemma_progress(self@);
        }
        let mut r: StepResult = self.process(Ghost(limit));
        while r == StepResult::More
            invariant
                self.sink.wf(),
                self.fed == old(self).fed,
                same_image(old(self)@, self@),
                roomy(old(self)@, limit),
                r == StepResult::More ==> run(old(self)@) == run(self@),
                r != StepResult::More ==> run(old(self)@) == (self@, r),
                r == StepResult::Eoi ==> sane(self@, limit + 1) && self@.worklen <= 23
                    && self@.mcupart == 0,
                r != StepResult::Eoi ==> sane(self@, limit),
                r == StepResult::FeedMe ==> self@.worklen <= 15,
            decreases
                    if r == StepResult::More {
                        1int
                    } else {
                        0int
                    },
                    self@.worklen,
                    if self@.int_next {
                        1int
                    } else {
                        0int
                    },
        {
            proof {
                lemma_progress(self@);
            }
            r = self.process(Ghost(limit));
        }
        r
    }

    fn fill_gap(&mut self, next_mcu: u32, Ghost(limit): Ghost<nat>)
        requires
            old(self).sink.wf(),
            sane(old(self)@, limit),
            roomy(old(self)@, limit),
            next_mcu <= limit,
        ensures
            final(self).sink.wf(),
            final(self).fed == old(self).fed,
            final(self)@ == fill_gap(old(self)@, next_mcu as nat),
            same_image(old(self)@, final(self)@),
            final(self)@.worklen == old(self)@.worklen,
            final(self)@.mcupart == 0,
            sane(ScanState { int_next: false, ..final(self)@ }, limit + 1),
    {
        let ghost s = self@;
        let chroma: bool = self.component != 0;
        proof {
            let y = self.ycparts as int;
            assert(limit + 2 <= 1_000_000) by (nonlinear_arith)
                requires
                    y >= 1,
                    limit >= 0,
                    y * (limit + 2) <= 1_000_000,
            ;
        }
        if self.mcupart > 0 || self.acpart > 0 {
            let mut part: u8 = self.mcupart;
            if self.acpart > 0 {
                emit(&mut self.sink, true, chroma, 0, 0);
                part = part + 1;
            }
            let ycparts: u8 = self.ycparts;
            emit_blanks(&mut self.sink, part, ycparts);
            self.mcu_id = self.mcu_id + 1;
        }
        let ghost mid = self@;
        let ghost fed = self.fed@;
        let ghost n: nat = if self.mcu_id < next_mcu {
            (next_mcu - self.mcu_id) as nat
        } else {
            0
        };
        while self.mcu_id < next_mcu
            invariant
                self.sink.wf(),
                self.fed@ == fed,
                self.ycparts <= 4,
                self@ == (ScanState { out: self.sink@, mcu_id: self.mcu_id as nat, ..mid }),
                n == if mid.mcu_id < next_mcu {
                    (next_mcu - mid.mcu_id) as nat
                } else {
                    0
                },
                mid.mcu_id <= self.mcu_id,
                self.mcu_id == mid.mcu_id || self.mcu_id <= next_mcu,
                put_blank_mcus(mid.out, n, mid.ycparts) == put_blank_mcus(
                    self.sink@,
                    if self.mcu_id < next_mcu {
                        (next_mcu - self.mcu_id) as nat
                    } else {
                        0
                    },
                    mid.ycparts,
                ),
            decreases next_mcu - self.mcu_id,
        {
            let ycparts: u8 = self.ycparts;
            emit_blanks(&mut self.sink, 0, ycparts);
            self.mcu_id = self.mcu_id + 1;
        }
        self.mcupart = 0;
        self.acpart = 0;
        self.component = 0;
        self.accrle = 0;
        assert(self@ =~= fill_gap(s, next_mcu as nat)) by {
            reveal(fill_gap);
        }
        proof {
            let y = self.ycparts as int;
            let before = s.mcu_id as int;
            let after = self.mcu_id as int;
            if s.mcupart > 0 || s.acpart > 0 {
                assert(y * before + y <= y * after) by (nonlinear_arith)
                    requires
                        y >= 1,
                        before + 1 <= after,
                ;
            } else {
                assert(y * before <= y * after) by (nonlinear_arith)
                    requires
                        y >= 1,
                        before <= after,
                ;
            }
        }
    }

    /// Take the payload from byte `from` on.
    fn feed_payload(&mut self, payload: &[u8], from: usize, offset: u8, Ghost(limit): Ghost<
        nat,
    >) -> (done: bool)
        requires
            old(self).sink.wf(),
            sane(old(self)@, limit),
            roomy(old(self)@, limit),
            at_rest(old(self)@),
            from <= 0xFF,
        ensures
            final(self).sink.wf(),
            final(self).fed == old(self).fed,
            (final(self)@, done) == feed_bytes(
                old(self)@,
                payload@,
                from as nat,
                offset as nat,
            ),
            sane(final(self)@, limit + 1),
            at_rest(final(self)@),
            same_image(old(self)@, final(self)@),
    {
        proof {
            reveal(feed_bytes);
        }
        let mut i: usize = from;
        let len: usize = payload.len();
        let ghost s = self@;
        while i < len
            invariant
                len == payload@.len(),
                self.sink.wf(),
                self.fed == old(self).fed,
                same_image(s, self@),
                s == old(self)@,
                sane(self@, limit),
                roomy(s, limit),
                at_rest(self@),
                feed_bytes(s, payload@, from as nat, offset as nat) == feed_bytes(
                    self@,
                    payload@,
                    i as nat,
                    offset as nat,
                ),
            decreases len - i,
        {
            proof {
                reveal(feed_bytes);
            }
            let ghost t0 = self@;
            if i == offset as usize {
                self.workbits = 0;
                self.worklen = 0;
                proof {
                    lemma2_to64();
                }
                assert(self@ =~= without_bits(t0));
                if self.mcu_id != self.next_reset_mcu {
                    return false;
                }
            }
            let ghost t = self@;
            let b: u8 = payload[i];
            proof {
                lemma_pow2_adds(self.worklen as nat, 8);
                lemma2_to64();
                assert(pow2(self.worklen as nat) <= 0x80_0000) by {
                    lemma_register(self.worklen as nat);
                }
            }
            self.workbits = 256 * self.workbits + b as u32;
            self.worklen = self.worklen + 8;
            assert(self@ =~= with_byte(t, b));
            let r: StepResult = self.work_off(Ghost(limit));
            if r == StepResult::FeedMe {
                i = i + 1;
            } else {
                if r == StepResult::Bad {
                    let ghost u = self@;
                    self.workbits = 0;
                    self.worklen = 0;
                    proof {
                        lemma2_to64();
                    }
                    assert(self@ =~= without_bits(u));
                }
                return false;
            }
        }
        true
    }

    /// Latch the geometry of the first packet.
    fn begin(&mut self, p: &SsdvPacket)
        requires
            old(self).wf(),
            p.raw@.len() >= 11,
        ensures
            final(self).wf(),
            final(self)@ == begun(old(self)@, p@),
            final(self).fed == old(self).fed,
            final(self).headers_written,
    {
        if self.headers_written {
            return;
        }
        self.head = write_headers(p);
        self.headers_written = true;
        self.expect_packet_id = 0;
        let a: u32 = p.raw[9] as u32;
        let b: u32 = p.raw[10] as u32;
        assert(0 <= a * b <= 65025) by (nonlinear_arith)
            requires
                0 <= a <= 255,
                0 <= b <= 255,
        ;
        let raw_mcu: u32 = a * b;
        let mode: u8 = p.mcu_mode % 4;
        if mode == 0 {
            self.ycparts = 4;
            self.mcu_count = raw_mcu;
        } else if mode == 3 {
            self.ycparts = 1;
            self.mcu_count = raw_mcu * 4;
        } else {
            self.ycparts = 2;
            self.mcu_count = raw_mcu * 2;
        }
        proof {
            lemma2_to64();
        }
        assert(self@ =~= begun(old(self)@, p@));
    }

    /// Feed one decoded SSDV packet to the builder. Packets must be supplied in
    /// `packet_id` order; gaps trigger automatic fill-in. Bad bits inside a
    /// packet abort that packet's processing; the decoder resyncs at the next
    /// packet via the gap-fill path. One image has at most as many packets as there
    /// are packet ids; for many more the running DC values would not fit in `i32`.
    pub fn feed_packet(&mut self, p: &SsdvPacket)
        requires
            old(self).wf(),
            old(self).packets_fed() < 0x1_0000,
            p.raw@.len() >= 11,
        ensures
            final(self).wf(),
            final(self)@ == fed(old(self)@, p@),
            final(self).packets_fed() == old(self).packets_fed() + 1,
    {
        self.begin(p);
        let ghost b = self@;
        let ghost limit: nat = (self.limit() + 1) as nat;
        proof {
            lemma_room(self.ycparts as int, self.mcu_count as int, self.fed@ as int, limit as int);
        }
        if p.mcu_id != 0xFFFF {
            self.next_reset_mcu = p.mcu_id as u32;
        }
        assert(self@ =~= announced(b, p@));
        self.fed = Ghost((self.fed@ + 1) as nat);
        assert(self@ =~= announced(b, p@));
        if p.packet_id < self.expect_packet_id || (p.packet_id > self.expect_packet_id && p.mcu_id
            == 0xFFFF) {
            return;
        }
        let from: usize = if p.packet_id != self.expect_packet_id {
            p.mcu_offset as usize
        } else {
            0
        };
        self.catch_up(p, Ghost((limit - 1) as nat));
        self.take_payload(p, from, Ghost(limit));
    }

    fn catch_up(&mut self, p: &SsdvPacket, Ghost(limit): Ghost<nat>)
        requires
            old(self).sink.wf(),
            sane(old(self)@, limit),
            roomy(old(self)@, limit),
            at_rest(old(self)@),
            p.mcu_id <= limit,
        ensures
            final(self).sink.wf(),
            final(self).fed == old(self).fed,
            final(self)@ == caught_up(old(self)@, p@),
            same_image(old(self)@, final(self)@),
            sane(final(self)@, limit + 1),
            at_rest(final(self)@),
    {
        if p.packet_id != self.expect_packet_id {
            self.fill_gap(p.mcu_id as u32, Ghost(limit));
            let ghost g = self@;
            self.int_next = false;
            assert(self@ =~= (ScanState { int_next: false, ..g }));
            self.expect_packet_id = p.packet_id;
        }
    }

    fn take_payload(&mut self, p: &SsdvPacket, from: usize, Ghost(limit): Ghost<nat>)
        requires
            old(self).sink.wf(),
            sane(old(self)@, limit),
            roomy(old(self)@, limit),
            at_rest(old(self)@),
            from <= 0xFF,
        ensures
            final(self).sink.wf(),
            final(self).fed == old(self).fed,
            final(self)@ == payload_taken(old(self)@, p@, from as nat),
            same_image(old(self)@, final(self)@),
            sane(final(self)@, limit + 1),
            at_rest(final(self)@),
    {
        let done: bool = self.feed_payload(p.payload.as_slice(), from, p.mcu_offset, Ghost(limit));
        if done {
            let id: u16 = p.packet_id;
            self.expect_packet_id = if id == 0xFFFF {
                0
            } else {
                id + 1
            };
        }
    }

    /// Finish the JPEG: pad missing MCUs to `mcu_count`, sync the bit
    /// accumulator, disable byte stuffing, and emit EOI.
    pub fn finish(self) -> (out: Vec<u8>)
        requires
            self.wf(),
            self.packets_fed() <= 0x1_0000,
        ensures
            out@ == jpeg_of(self@),
            self@.started ==> is_stuffed(scan_data(self@)),
    {
        if !self.headers_written {
            return Vec::new();
        }
        let mut b = self;
        if b.mcu_id < b.mcu_count {
            let count: u32 = b.mcu_count;
            proof {
                lemma_room(
                    b.ycparts as int,
                    b.mcu_count as int,
                    b.fed@ as int,
                    b.limit() as int,
                );
            }
            b.fill_gap(count, Ghost(b.limit()));
        }
        b.sink.outbits_sync();
        let mut out: Vec<u8> = b.head;
        let scan: Vec<u8> = b.sink.into_bytes();
        append_slice(&mut out, scan.as_slice());
        let ghost before = out@;
        out.push(0xFF);
        out.push(0xD9);
        assert(out@ =~= before + seq![0xFFu8, 0xD9u8]);
        out
    }
}

impl Default for JpegBuilder {
    fn default() -> (b: Self)
        ensures
            b.wf(),
            b@ == initial(),
            b.packets_fed() == 0,
    {
        Self::new()
    }
}

proof fn lemma_room(y: int, count: int, packets: int, limit: int)
    requires
        1 <= y <= 4,
        0 <= count,
        y * count <= 260100,
        0 <= packets <= 0x1_0000,
        0 <= limit <= (if count > 0xFFFF {
            count
        } else {
            0xFFFF
        }) + 2 * packets + 1,
    ensures
        y * (limit + 2) <= 1_000_000,
        y * (limit + 1) <= 1_000_000,
{
    assert(y * (limit + 2) <= 1_000_000 && y * (limit + 1) <= 1_000_000) by (nonlinear_arith)
        requires
            1 <= y <= 4,
            0 <= count,
            y * count <= 260100,
            0 <= packets <= 0x1_0000,
            0 <= limit <= (if count > 0xFFFF {
                count
            } else {
                0xFFFF
            }) + 2 * packets + 1,
    ;
}

proof fn lemma_register(k: nat)
    requires
        k <= 23,
    ensures
        pow2(k) <= 0x80_0000,
{
    lemma2_to64();
}

proof fn lemma_eleven(k: nat)
    requires
        k <= 11,
    ensures
        pow2(k) <= 2048,
{
    lemma2_to64();
}

proof fn lemma_run_image(s: ScanState)
    ensures
        same_image(s, run(s).0),
    decreases
            s.worklen,
            if s.int_next {
                1int
            } else {
                0int
            },
{
    lemma_progress(s);
    let (t, r) = step(s);
    assert(same_image(s, t)) by {
        reveal(step);
    }
    if r == StepResult::More {
        lemma_run_image(t);
    }
}

proof fn lemma_feed_image(s: ScanState, payload: Seq<u8>, i: nat, offset: nat)
    ensures
        same_image(s, feed_bytes(s, payload, i, offset).0),
    decreases payload.len() - i,
{
    reveal(feed_bytes);
    if i < payload.len() {
        let t = if i == offset {
            without_bits(s)
        } else {
            s
        };
        let b = with_byte(t, payload[i as int]);
        lemma_run_image(b);
        if run(b).1 == StepResult::FeedMe {
            lemma_feed_image(run(b).0, payload, i + 1, offset);
        }
    }
}

/// The first packet gives the headers, and no later packet changes them.
pub proof fn law_headers_stay(s: ScanState, p: PacketModel)
    ensures
        fed(s, p).started,
        s.started ==> fed(s, p).head == s.head,
        !s.started ==> fed(s, p).head == headers(p.width, p.height, p.mcu_mode, p.quality),
{
    let a = announced(begun(s, p), p);
    let c = caught_up(a, p);
    assert(same_image(a, c)) by {
        reveal(fill_gap);
    }
    lemma_feed_image(
        c,
        p.payload,
        if p.packet_id != a.expect {
            p.mcu_offset as nat
        } else {
            0
        },
        p.mcu_offset as nat,
    );
}

/// The first packet gives the number of luma blocks of an MCU and the number of MCUs,
/// and no later packet changes them.
pub proof fn law_image_stays(s: ScanState, p: PacketModel)
    ensures
        fed(s, p).started,
        s.started ==> fed(s, p).ycparts == s.ycparts && fed(s, p).mcu_count == s.mcu_count,
        !s.started ==> fed(s, p).ycparts == luma_parts(p.mcu_mode) && fed(s, p).mcu_count
            == image_mcus(p.raw[9], p.raw[10], p.mcu_mode),
{
    let a = announced(begun(s, p), p);
    let c = caught_up(a, p);
    assert(same_image(a, c)) by {
        reveal(fill_gap);
    }
    lemma_feed_image(
        c,
        p.payload,
        if p.packet_id != a.expect {
            p.mcu_offset as nat
        } else {
            0
        },
        p.mcu_offset as nat,
    );
}

/// A finished image starts with the start-of-image marker and its headers, and
/// ends with the end-of-image marker.
pub proof fn law_framed(s: ScanState, width: u16, height: u16, mcu_mode: u8, quality: u8)
    requires
        s.started,
        s.head == headers(width, height, mcu_mode, quality),
    ensures
        jpeg_of(s).len() > s.head.len() + 1,
        jpeg_of(s).take(s.head.len() as int) == s.head,
        jpeg_of(s)[0] == 0xFF,
        jpeg_of(s)[1] == 0xD8,
        jpeg_of(s)[jpeg_of(s).len() - 2] == 0xFF,
        jpeg_of(s)[jpeg_of(s).len() - 1] == 0xD9,
{
    reveal(headers);
    assert(s.head[0] == 0xFF && s.head[1] == 0xD8 && s.head.len() >= 2);
    assert(jpeg_of(s).take(s.head.len() as int) =~= s.head);
}

/// A packet before the one expected leaves the image as it is.
pub proof fn law_late_packet_is_dropped(s: ScanState, p: PacketModel)
    requires
        s.started,
        p.packet_id < s.expect,
    ensures
        jpeg_of(fed(s, p)) == jpeg_of(s),
{
    reveal(fill_gap);
}

/// The differences that are written for DC coefficients add up to the values that the
/// packets give: a value is absolute at a reset and relative to the last one
/// elsewhere, and what is written is always the step from the last value to the new
/// one. A code for zero is no exception.
pub proof fn law_dc_stays_in_step(s: ScanState, i: int)
    requires
        s.component <= 2,
        s.dc.len() == 3,
    ensures
        ({
            let c = s.component as int;
            let t = dc_value(s, i);
            &&& t.out == put_int(s.out, false, c != 0, 0, t.dc[c] - s.dc[c])
            &&& t.dc[c] == (if at_reset(s) {
                i
            } else {
                s.dc[c] + i
            })
            &&& forall|k: int| 0 <= k < 3 && k != c ==> #[trigger] t.dc[k] == s.dc[k]
        }),
        dc_symbol(s, 0).out == dc_value(s, 0).out,
        dc_symbol(s, 0).dc == dc_value(s, 0).dc,
{
    assert(dc_symbol(s, 0).dc =~= dc_value(s, 0).dc);
}

/// An image that is finished early is completed: the MCU that was begun and the
/// missing ones are filled up to the last, and as blank blocks carry no difference,
/// the DC values stay.
pub proof fn law_missing_mcus_are_filled(s: ScanState)
    requires
        s.mcu_id < s.mcu_count,
    ensures
        ({
            let t = fill_gap(s, s.mcu_count);
            &&& t.mcu_id == s.mcu_count
            &&& t.mcupart == 0
            &&& t.acpart == 0
            &&& t.dc == s.dc
            &&& scan_data(s) == synced(t.out).out
        }),
{
    reveal(fill_gap);
}

/// A coefficient is read back: where the table has a code for the run and the width,
/// the code and the bits of the coefficient are what a reader sees next, it finds the
/// code there, and the bits behind it stand for the coefficient.
pub proof fn law_coefficient_is_read_back(
    out: SinkState,
    ac: bool,
    chroma: bool,
    rle: nat,
    value: int,
)
    requires
        is_stuffed(out.out),
        out.bits < pow2(out.len),
        out.len < 8,
        rle < 16,
        int_code(value).1 < 16,
        code_of(
            table_bytes(table_for(ac, chroma)),
            (16 * rle + int_code(value).1) as u8,
        ) is Some,
    ensures
        ({
            let table = table_bytes(table_for(ac, chroma));
            let (bits, width) = int_code(value);
            let symbol = (16 * rle + width) as u8;
            let (code, len) = code_of(table, symbol).unwrap();
            let piece = code * pow2(width) + bits;
            let after = put_int(out, ac, chroma, rle, value);
            &&& seen(after) == (seen(out).0 * pow2(len + width) + piece, seen(out).1 + len + width)
            &&& is_stuffed(after.out)
            &&& after.bits < pow2(after.len)
            &&& after.len < 8
            &&& lookup(table, piece, len + width) == Some((symbol, len as u8))
            &&& int_value(bits as int, width) == value
        }),
{
    let t = table_for(ac, chroma);
    let table = table_bytes(t);
    let (bits, width) = int_code(value);
    let symbol = (16 * rle + width) as u8;
    let (code, len) = code_of(table, symbol).unwrap();
    lemma_tables(t);
    lemma_code_width(table, symbol);
    law_int_round_trip(value);
    law_code_round_trip(table, symbol, bits, width);
    let mid = put(out, code, len);
    law_written_bits_are_appended(out, code, len);
    law_stuffing(out, code, len);
    law_written_bits_are_appended(mid, bits, width);
    law_stuffing(mid, bits, width);
    lemma_small_mod(code, pow2(len));
    lemma_small_mod(bits, pow2(width));
    lemma_pow2_adds(len, width);
    let n = seen(out).0;
    assert((n * pow2(len) + code) * pow2(width) + bits == n * (pow2(len) * pow2(width)) + (code
        * pow2(width) + bits)) by (nonlinear_arith);
}

/// The bits at hand begin with the code of a run and a coefficient and with the bits of
/// the coefficient; `tail` are the `k` bits behind them.
pub open spec fn begins_with(
    s: ScanState,
    ac: bool,
    rle: nat,
    value: int,
    tail: nat,
    k: nat,
) -> bool {
    let (bits, width) = int_code(value);
    let symbol = (16 * rle + width) as u8;
    let table = table_bytes(table_for(ac, s.component != 0));
    &&& rle < 16
    &&& 0 < width < 16
    &&& tail < pow2(k)
    &&& code_of(table, symbol) matches Some((code, len)) && {
        &&& s.worklen == len + width + k
        &&& s.work == (code * pow2(width) + bits) * pow2(k) + tail
    }
}

proof fn lemma_code_is_taken(s: ScanState, ac: bool, rle: nat, value: int, tail: nat, k: nat)
    requires
        begins_with(s, ac, rle, value, tail, k),
    ensures
        ({
            let (bits, width) = int_code(value);
            let symbol = (16 * rle + width) as u8;
            let table = table_bytes(table_for(ac, s.component != 0));
            let (code, len) = code_of(table, symbol).unwrap();
            let t = consume(s, len);
            &&& 1 <= len <= 16
            &&& lookup(table, s.work, s.worklen) == Some((symbol, len as u8))
            &&& t.worklen == width + k
            &&& t.work == bits * pow2(k) + tail
            &&& t.work / pow2(k) == bits
            &&& consume(t, width).work == tail
            &&& consume(t, width).worklen == k
            &&& int_value(bits as int, width) == value
            &&& symbol % 16 == width
            &&& symbol / 16 == rle
        }),
{
    let (bits, width) = int_code(value);
    let symbol = (16 * rle + width) as u8;
    let kind = table_for(ac, s.component != 0);
    let table = table_bytes(kind);
    let (code, len) = code_of(table, symbol).unwrap();
    lemma_tables(kind);
    lemma_code_width(table, symbol);
    law_int_round_trip(value);
    lemma_pow2_adds(width, k);
    lemma_pow2_pos(k);
    let low = bits * pow2(k) + tail;
    assert(low < pow2(width) * pow2(k)) by (nonlinear_arith)
        requires
            low == bits * pow2(k) + tail,
            tail < pow2(k),
            bits + 1 <= pow2(width),
    ;
    assert(s.work == code * (pow2(width) * pow2(k)) + low) by (nonlinear_arith)
        requires
            s.work == (code * pow2(width) + bits) * pow2(k) + tail,
            low == bits * pow2(k) + tail,
    ;
    law_code_round_trip(table, symbol, low, width + k);
    lemma_fundamental_div_mod_converse(
        s.work as int,
        pow2(width + k) as int,
        code as int,
        low as int,
    );
    lemma_fundamental_div_mod_converse(low as int, pow2(k) as int, bits as int, tail as int);
}

/// A coefficient inside a block passes through: what the packet says of its run and its
/// value is written again, and the bits behind it are left.
pub proof fn law_coefficient_passes_through(
    s: ScanState,
    rle: nat,
    value: int,
    tail: nat,
    k: nat,
)
    requires
        !s.int_next,
        s.acpart > 0,
        s.acpart + rle < 63,
        s.accrle == 0,
        begins_with(s, true, rle, value, tail, k),
    ensures
        ({
            let (mid, first) = step(s);
            let (end, second) = step(mid);
            &&& first == StepResult::More
            &&& second == StepResult::More
            &&& end == (ScanState {
                out: put_int(s.out, true, s.component != 0, rle, value),
                acpart: s.acpart + rle + 1,
                acrle: rle,
                needbits: int_code(value).1,
                work: tail,
                worklen: k,
                ..s
            })
        }),
{
    reveal(step);
    lemma_code_is_taken(s, true, rle, value, tail, k);
    assert(value != 0) by {
        if value == 0 {
            assert(int_code(0).1 == 0);
        }
    }
    assert(put_runs(s.out, s.component != 0, rle) == (s.out, rle));
}

/// A DC coefficient passes through as the step from the last value to the one that the
/// packet gives, absolutely at a reset and relatively elsewhere.
pub proof fn law_dc_passes_through(s: ScanState, value: int, tail: nat, k: nat)
    requires
        !s.int_next,
        s.acpart == 0,
        s.component <= 2,
        s.dc.len() == 3,
        begins_with(s, false, 0, value, tail, k),
    ensures
        ({
            let l = latched(s);
            let c = s.component as int;
            let now = if at_reset(l) {
                value
            } else {
                s.dc[c] + value
            };
            let (mid, first) = step(s);
            let (end, second) = step(mid);
            &&& first == StepResult::More
            &&& second == StepResult::More
            &&& end == (ScanState {
                out: put_int(s.out, false, c != 0, 0, now - s.dc[c]),
                dc: s.dc.update(c, now),
                acpart: 1,
                needbits: int_code(value).1,
                work: tail,
                worklen: k,
                ..l
            })
        }),
{
    reveal(step);
    lemma_code_is_taken(s, false, 0, value, tail, k);
}

} // verus!
