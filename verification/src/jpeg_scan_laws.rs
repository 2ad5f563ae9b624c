//! How the codes of a packet pass into the scan, block by block, and what fills its gaps.
use vstd::prelude::*;
use vstd::arithmetic::div_mod::lemma_fundamental_div_mod_converse;
use vstd::arithmetic::power2::{lemma2_to64, lemma_pow2_pos, pow2};
use crate::jpeg_huffman::{
    code_of, int_code, law_code_round_trip, lemma_code_width, lemma_tables, table_bytes, Table,
};
use crate::jpeg_writer::{
    is_stuffed, law_written_bits_are_appended, put, seen, synced, SinkState,
};
use crate::ssdv::PacketModel;
use crate::ssdv_jpeg::{
    advance, announced, at_reset, begun, fed, feed_bytes, fill_gap, jpeg_of, latched,
    payload_taken, put_blank, put_blank_mcus, put_blanks, put_int, put_runs, run, scan_data, step,
    ScanState, StepResult,
};

verus! {

/// The data with the code of a symbol behind it.
pub open spec fn coded(out: SinkState, table: Table, symbol: u8) -> SinkState {
    match code_of(table_bytes(table), symbol) {
        Some((code, width)) => put(out, code, width),
        None => out,
    }
}

/// The table of the AC coefficients of a component.
pub open spec fn ac_table(chroma: bool) -> Table {
    if chroma {
        Table::AcChroma
    } else {
        Table::AcLuma
    }
}

/// The table of the DC coefficients of a component.
pub open spec fn dc_table(chroma: bool) -> Table {
    if chroma {
        Table::DcChroma
    } else {
        Table::DcLuma
    }
}

/// A run of zeros and a coefficient are written as the code of both and the bits of the
/// coefficient, which a zero has none of.
pub proof fn law_coefficients_are_coded(
    out: SinkState,
    chroma: bool,
    rle: nat,
    value: int,
)
    requires
        rle < 16,
        int_code(value).1 < 16,
    ensures
        ({
            let (bits, width) = int_code(value);
            let symbol = (16 * rle + width) as u8;
            &&& put_int(out, true, chroma, rle, value) == put(
                coded(out, ac_table(chroma), symbol),
                bits,
                width,
            )
            &&& put_int(out, false, chroma, rle, value) == put(
                coded(out, dc_table(chroma), symbol),
                bits,
                width,
            )
            &&& value == 0 ==> put_int(out, true, chroma, rle, value) == coded(
                out,
                ac_table(chroma),
                (16 * rle) as u8,
            )
            &&& value == 0 ==> put_int(out, false, chroma, rle, value) == coded(
                out,
                dc_table(chroma),
                (16 * rle) as u8,
            )
        }),
{
    crate::jpeg_code_laws::law_coefficient_bits(value);
}

/// A block of zeros: no difference to the block before, and the end of the block.
pub open spec fn blank_block(out: SinkState, chroma: bool) -> SinkState {
    coded(coded(out, dc_table(chroma), 0), ac_table(chroma), 0)
}

/// The blocks of an MCU from number `part` on, of zeros: those of luma come first, then one
/// for each of the two chroma components.
pub open spec fn blank_blocks(out: SinkState, part: nat, luma: nat) -> SinkState
    decreases luma + 2 - part,
{
    if part >= luma + 2 {
        out
    } else {
        blank_blocks(blank_block(out, part >= luma), part + 1, luma)
    }
}

/// Whole MCUs of zeros.
pub open spec fn blank_mcus(out: SinkState, count: nat, luma: nat) -> SinkState
    decreases count,
{
    if count == 0 {
        out
    } else {
        blank_mcus(blank_blocks(out, 0, luma), (count - 1) as nat, luma)
    }
}

proof fn lemma_blank(out: SinkState, chroma: bool)
    ensures
        put_blank(out, chroma) == blank_block(out, chroma),
{
    assert(int_code(0).1 == 0) by {
        crate::jpeg_code_laws::law_coefficient_bits(0);
    }
    law_coefficients_are_coded(out, chroma, 0, 0);
    law_coefficients_are_coded(put_int(out, false, chroma, 0, 0), chroma, 0, 0);
}

proof fn lemma_blanks(out: SinkState, part: nat, luma: nat)
    ensures
        put_blanks(out, part, luma) == blank_blocks(out, part, luma),
    decreases luma + 2 - part,
{
    if part < luma + 2 {
        lemma_blank(out, part >= luma);
        lemma_blanks(blank_block(out, part >= luma), part + 1, luma);
    }
}

proof fn lemma_blank_mcus(out: SinkState, count: nat, luma: nat)
    ensures
        put_blank_mcus(out, count, luma) == blank_mcus(out, count, luma),
    decreases count,
{
    if count > 0 {
        lemma_blanks(out, 0, luma);
        lemma_blank_mcus(blank_blocks(out, 0, luma), (count - 1) as nat, luma);
    }
}

/// The scan with the MCU completed that was begun, if one was: the block is ended that was
/// begun, and the other blocks are blank.
pub open spec fn completed(s: ScanState) -> SinkState {
    if s.acpart > 0 {
        blank_blocks(coded(s.out, ac_table(s.component != 0), 0), s.mcupart + 1, s.ycparts)
    } else if s.mcupart > 0 {
        blank_blocks(s.out, s.mcupart, s.ycparts)
    } else {
        s.out
    }
}

/// The number of the MCU behind the one that was begun.
pub open spec fn due(s: ScanState) -> nat {
    if s.acpart > 0 || s.mcupart > 0 {
        s.mcu_id + 1
    } else {
        s.mcu_id
    }
}

/// A gap up to an MCU is filled by completing what was begun and by as many blank MCUs as
/// are missing.
pub proof fn law_gap_is_filled(s: ScanState, next: nat)
    ensures
        ({
            let t = fill_gap(s, next);
            let missing: nat = if due(s) < next {
                (next - due(s)) as nat
            } else {
                0
            };
            &&& t.out == blank_mcus(completed(s), missing, s.ycparts)
            &&& t.mcu_id == due(s) + missing
            &&& t.mcupart == 0 && t.acpart == 0 && t.component == 0
            &&& t.dc == s.dc
            &&& t.head == s.head && t.mcu_count == s.mcu_count && t.ycparts == s.ycparts
        }),
{
    reveal(fill_gap);
    assert(int_code(0).1 == 0) by {
        crate::jpeg_code_laws::law_coefficient_bits(0);
    }
    law_coefficients_are_coded(s.out, s.component != 0, 0, 0);
    lemma_blanks(s.out, s.mcupart, s.ycparts);
    lemma_blanks(coded(s.out, ac_table(s.component != 0), 0), s.mcupart + 1, s.ycparts);
    let missing: nat = if due(s) < next {
        (next - due(s)) as nat
    } else {
        0
    };
    lemma_blank_mcus(completed(s), missing, s.ycparts);
}

/// The end of a scan: an image with MCUs missing is filled up to the last one, and the last
/// byte is filled with ones.
pub proof fn law_scan_is_completed(s: ScanState)
    ensures
        s.mcu_id < s.mcu_count ==> scan_data(s) == synced(fill_gap(s, s.mcu_count).out).out,
        s.mcu_id >= s.mcu_count ==> scan_data(s) == synced(s.out).out,
        s.started ==> jpeg_of(s) == s.head + scan_data(s) + seq![0xFFu8, 0xD9u8],
        !s.started ==> jpeg_of(s).len() == 0,
{
}

/// Completing a byte adds ones, fewer than eight.
pub proof fn law_last_byte_is_filled_with_ones(out: SinkState)
    requires
        is_stuffed(out.out),
        out.bits < pow2(out.len),
        out.len < 8,
    ensures
        ({
            let k: nat = if out.len == 0 {
                0
            } else {
                (8 - out.len) as nat
            };
            &&& seen(synced(out)).0 == seen(out).0 * pow2(k) + pow2(k) - 1
            &&& seen(synced(out)).1 == seen(out).1 + k
        }),
        seen(synced(out)).1 % 8 == 0,
{
    lemma2_to64();
    if out.len > 0 {
        let k = (8 - out.len) as nat;
        law_written_bits_are_appended(out, 0xFF, k);
        assert(k == 1 || k == 2 || k == 3 || k == 4 || k == 5 || k == 6 || k == 7);
        assert(pow2(k) * (pow2(out.len) - 1) + (pow2(k) - 1) == 255) by {
            assert(out.len == 8 - k);
        }
        lemma_fundamental_div_mod_converse(255, pow2(k) as int, pow2(out.len) - 1, pow2(k) - 1);
    }
    let n = crate::jpeg_writer::unstuffed(out.out).len();
    assert((8 * n + 8) % 8 == 0);
}

/// Where the scan goes on when a block is complete: with the next block of the MCU, or with
/// the first of the next MCU, unless that was the last.
pub proof fn law_blocks_follow_each_other(s: ScanState)
    requires
        s.acpart >= 64,
        s.mcupart < s.ycparts + 2,
    ensures
        ({
            let (t, r) = advance(s);
            let blocks = s.ycparts + 2;
            &&& s.mcupart + 1 < blocks ==> {
                &&& r == StepResult::More
                &&& t.mcupart == s.mcupart + 1
                &&& t.mcu_id == s.mcu_id
                &&& t.component == if t.mcupart < s.ycparts {
                    0
                } else if t.mcupart == s.ycparts {
                    1int
                } else {
                    2
                }
                &&& t.acpart == 0 && t.accrle == 0 && t.out == s.out
            }
            &&& s.mcupart + 1 == blocks && s.mcu_id + 1 < s.mcu_count ==> {
                &&& r == StepResult::More
                &&& t.mcupart == 0
                &&& t.mcu_id == s.mcu_id + 1
                &&& s.ycparts > 0 ==> t.component == 0
                &&& t.acpart == 0 && t.accrle == 0 && t.out == s.out
            }
            &&& s.mcupart + 1 == blocks && s.mcu_id + 1 >= s.mcu_count ==> {
                &&& r == StepResult::Eoi
                &&& t.mcu_id == s.mcu_id + 1
                &&& t.out == synced(s.out)
            }
            &&& t.dc == s.dc && t.work == s.work && t.worklen == s.worklen
        }),
{
}

/// A block that is not complete goes on.
pub proof fn law_block_goes_on(s: ScanState)
    requires
        s.acpart < 64,
    ensures
        advance(s) == (s, StepResult::More),
{
}

/// The bits at hand begin with the code of a symbol; `tail` are the `k` bits behind it.
pub open spec fn begins_with_code(s: ScanState, table: Table, symbol: u8, tail: nat, k: nat) -> bool {
    &&& tail < pow2(k)
    &&& code_of(table_bytes(table), symbol) matches Some((code, width)) && {
        &&& s.worklen == width + k
        &&& s.work == code * pow2(k) + tail
    }
}

proof fn lemma_code_read(s: ScanState, table: Table, symbol: u8, tail: nat, k: nat)
    requires
        begins_with_code(s, table, symbol, tail, k),
    ensures
        ({
            let (code, width) = code_of(table_bytes(table), symbol).unwrap();
            &&& 1 <= width <= 16
            &&& crate::jpeg_huffman::lookup(table_bytes(table), s.work, s.worklen) == Some(
                (symbol, width as u8),
            )
            &&& s.worklen - width == k
            &&& s.work % pow2(k) == tail
        }),
{
    let (code, width) = code_of(table_bytes(table), symbol).unwrap();
    lemma_tables(table);
    lemma_code_width(table_bytes(table), symbol);
    law_code_round_trip(table_bytes(table), symbol, tail, k);
    lemma_pow2_pos(k);
    lemma_fundamental_div_mod_converse(s.work as int, pow2(k) as int, code as int, tail as int);
}

/// The end of a block passes through: it is written again, whatever zeros are pending, and
/// the block is complete.
pub proof fn law_end_of_block_passes_through(s: ScanState, tail: nat, k: nat)
    requires
        !s.int_next,
        s.acpart > 0,
        begins_with_code(s, ac_table(s.component != 0), 0, tail, k),
    ensures
        step(s) == advance(
            ScanState {
                out: coded(s.out, ac_table(s.component != 0), 0),
                acpart: 64,
                acrle: 0,
                work: tail,
                worklen: k,
                ..s
            },
        ),
{
    reveal(step);
    lemma_code_read(s, ac_table(s.component != 0), 0, tail, k);
    assert(int_code(0).1 == 0) by {
        crate::jpeg_code_laws::law_coefficient_bits(0);
    }
    law_coefficients_are_coded(s.out, s.component != 0, 0, 0);
}

/// A run of sixteen zeros passes through.
pub proof fn law_zero_run_passes_through(s: ScanState, tail: nat, k: nat)
    requires
        !s.int_next,
        s.acpart > 0,
        begins_with_code(s, ac_table(s.component != 0), 0xF0, tail, k),
    ensures
        step(s) == advance(
            ScanState {
                out: coded(s.out, ac_table(s.component != 0), 0xF0),
                acpart: s.acpart + 16,
                acrle: 0,
                work: tail,
                worklen: k,
                ..s
            },
        ),
{
    reveal(step);
    lemma_code_read(s, ac_table(s.component != 0), 0xF0, tail, k);
    assert(int_code(0).1 == 0) by {
        crate::jpeg_code_laws::law_coefficient_bits(0);
    }
    law_coefficients_are_coded(s.out, s.component != 0, 15, 0);
}

/// A DC code for no difference is written as the step to the value that it stands for: the
/// same value as before, or zero at a reset.
pub proof fn law_zero_difference_passes_through(s: ScanState, tail: nat, k: nat)
    requires
        !s.int_next,
        s.acpart == 0,
        s.component <= 2,
        s.dc.len() == 3,
        begins_with_code(s, dc_table(s.component != 0), 0, tail, k),
    ensures
        ({
            let l = latched(s);
            let c = s.component as int;
            let now = if at_reset(l) {
                0
            } else {
                s.dc[c]
            };
            step(s) == advance(
                ScanState {
                    out: put_int(s.out, false, c != 0, 0, now - s.dc[c]),
                    dc: s.dc.update(c, now),
                    acpart: 1,
                    work: tail,
                    worklen: k,
                    ..l
                },
            )
        }),
{
    reveal(step);
    let c = s.component as int;
    lemma_code_read(s, dc_table(s.component != 0), 0, tail, k);
    assert(s.dc.update(c, s.dc[c]) =~= s.dc);
}

/// Values are absolute in the blocks of the reset MCU that are the first of their component.
pub proof fn law_values_are_absolute_at_a_reset(s: ScanState)
    requires
        s.mcupart < s.ycparts + 2,
        s.ycparts > 0,
    ensures
        at_reset(s) <==> s.mcu_id == s.reset_mcu && (s.mcupart == 0 || s.mcupart == s.ycparts
            || s.mcupart == s.ycparts + 1),
{
}

/// A reset that a packet announced counts from the beginning of an MCU on.
pub proof fn law_resets_begin_with_an_mcu(s: ScanState)
    ensures
        latched(s).reset_mcu == if s.mcupart == 0 && s.acpart == 0 && s.next_reset_mcu
            > s.reset_mcu {
            s.next_reset_mcu
        } else {
            s.reset_mcu
        },
        latched(s) == (ScanState { reset_mcu: latched(s).reset_mcu, ..s }),
{
}

/// As many runs of sixteen zeros.
pub open spec fn zero_runs(out: SinkState, chroma: bool, count: nat) -> SinkState
    decreases count,
{
    if count == 0 {
        out
    } else {
        zero_runs(coded(out, ac_table(chroma), 0xF0), chroma, (count - 1) as nat)
    }
}

/// A long run is written as runs of sixteen, and what is left of it goes with the
/// coefficient.
pub proof fn law_long_runs_are_split(out: SinkState, chroma: bool, length: nat)
    ensures
        put_runs(out, chroma, length) == (
            zero_runs(out, chroma, (length / 16) as nat),
            (length % 16) as nat,
        ),
    decreases length,
{
    if length >= 16 {
        assert(int_code(0).1 == 0) by {
            crate::jpeg_code_laws::law_coefficient_bits(0);
        }
        law_coefficients_are_coded(out, chroma, 15, 0);
        law_long_runs_are_split(put_int(out, true, chroma, 15, 0), chroma, (length - 16) as nat);
        assert(length / 16 == (length - 16) / 16 + 1);
        assert(length % 16 == (length - 16) % 16);
    }
}

/// A zero that a packet gives as a coefficient joins the run before the next one, or ends
/// the block if it is the last.
pub proof fn law_zero_coefficient_joins_the_run(s: ScanState)
    requires
        s.int_next,
        s.needbits == 0,
        0 < s.acpart <= 63,
        s.work < pow2(s.worklen),
    ensures
        s.acpart < 63 ==> step(s) == advance(
            ScanState {
                accrle: s.accrle + s.acrle + 1,
                acpart: s.acpart + 1,
                int_next: false,
                ..s
            },
        ),
        s.acpart == 63 ==> step(s) == advance(
            ScanState {
                out: coded(s.out, ac_table(s.component != 0), 0),
                accrle: 0,
                acpart: 64,
                int_next: false,
                ..s
            },
        ),
{
    reveal(step);
    lemma2_to64();
    assert(int_code(0).1 == 0) by {
        crate::jpeg_code_laws::law_coefficient_bits(0);
    }
    law_coefficients_are_coded(s.out, s.component != 0, 0, 0);
    vstd::arithmetic::div_mod::lemma_small_mod(s.work, pow2(s.worklen));
}

/// A coefficient is written with the zeros pending before it.
pub proof fn law_coefficient_takes_the_run(s: ScanState)
    requires
        s.int_next,
        0 < s.needbits <= s.worklen,
        s.acpart > 0,
    ensures
        ({
            let k = (s.worklen - s.needbits) as nat;
            let bits = s.work / pow2(k);
            let value = crate::jpeg_huffman::int_value(bits as int, s.needbits);
            let zeros = s.accrle + s.acrle;
            let chroma = s.component != 0;
            value != 0 ==> step(s) == advance(
                ScanState {
                    out: put_int(
                        zero_runs(s.out, chroma, (zeros / 16) as nat),
                        true,
                        chroma,
                        (zeros % 16) as nat,
                        value,
                    ),
                    accrle: 0,
                    acpart: s.acpart + 1,
                    int_next: false,
                    work: s.work % pow2(k),
                    worklen: k,
                    ..s
                },
            )
        }),
{
    reveal(step);
    law_long_runs_are_split(s.out, s.component != 0, s.accrle + s.acrle);
}

/// A packet ahead of the one expected is useless if it does not say where it belongs.
pub proof fn law_lost_packet_is_dropped(s: ScanState, p: PacketModel)
    requires
        s.started,
        p.packet_id > s.expect,
        p.mcu_id == 0xFFFF,
    ensures
        jpeg_of(fed(s, p)) == jpeg_of(s),
        fed(s, p).expect == s.expect,
        fed(s, p).mcu_id == s.mcu_id,
{
}

/// A packet ahead of the one expected goes where it says: the gap up to its first MCU is
/// filled, and its bytes are taken from there on, without what was left of earlier ones.
pub proof fn law_packet_ahead_is_placed(s: ScanState, p: PacketModel)
    requires
        s.started,
        p.packet_id > s.expect,
        p.mcu_id != 0xFFFF,
    ensures
        ({
            let filled = fill_gap(s, p.mcu_id as nat);
            let ready = ScanState {
                next_reset_mcu: p.mcu_id as nat,
                int_next: false,
                expect: p.packet_id as nat,
                ..filled
            };
            &&& fed(s, p) == payload_taken(ready, p, p.mcu_offset as nat)
            &&& due(s) > p.mcu_id && p.mcu_offset < p.payload.len() ==> fed(s, p).out == filled.out
        }),
{
    reveal(fill_gap);
    reveal_with_fuel(feed_bytes, 2);
    let a = announced(begun(s, p), p);
    assert(fill_gap(a, p.mcu_id as nat) == (ScanState {
        next_reset_mcu: p.mcu_id as nat,
        ..fill_gap(s, p.mcu_id as nat)
    }));
    law_gap_is_filled(s, p.mcu_id as nat);
}

/// The packet expected goes on where the scan stands.
pub proof fn law_packet_expected_goes_on(s: ScanState, p: PacketModel)
    requires
        s.started,
        p.packet_id == s.expect,
    ensures
        ({
            let ready = if p.mcu_id != 0xFFFF {
                ScanState { next_reset_mcu: p.mcu_id as nat, ..s }
            } else {
                s
            };
            fed(s, p) == payload_taken(ready, p, 0)
        }),
{
}

/// The bytes of a payload are taken one by one until the bits at hand need more. At the
/// first MCU of the packet the bits before it are left, and if the scan is not there yet,
/// the packet ends. If all bytes were taken, the packet behind this one is expected.
pub proof fn law_bytes_are_taken(s: ScanState, p: PacketModel, i: nat)
    requires
        i < p.payload.len(),
    ensures
        ({
            let offset = p.mcu_offset as nat;
            let ready = if i == offset {
                ScanState { work: 0, worklen: 0, ..s }
            } else {
                s
            };
            let more = ScanState {
                work: 256 * ready.work + p.payload[i as int] as nat,
                worklen: ready.worklen + 8,
                ..ready
            };
            if i == offset && s.mcu_id != s.next_reset_mcu {
                feed_bytes(s, p.payload, i, offset) == (ready, false)
            } else {
                match run(more).1 {
                    StepResult::FeedMe => feed_bytes(s, p.payload, i, offset) == feed_bytes(
                        run(more).0,
                        p.payload,
                        i + 1,
                        offset,
                    ),
                    StepResult::Bad => feed_bytes(s, p.payload, i, offset) == (
                        ScanState { work: 0, worklen: 0, ..run(more).0 },
                        false,
                    ),
                    _ => feed_bytes(s, p.payload, i, offset) == (run(more).0, false),
                }
            }
        }),
        feed_bytes(s, p.payload, p.payload.len(), p.mcu_offset as nat) == (s, true),
        payload_taken(s, p, p.payload.len()).expect == if p.packet_id < 0xFFFF {
            p.packet_id + 1
        } else {
            0
        },
{
    reveal_with_fuel(feed_bytes, 2);
}

} // verus!
