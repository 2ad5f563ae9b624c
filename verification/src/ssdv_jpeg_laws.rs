//! What holds of re-encoded SSDV images after any sequence of packets.
use vstd::prelude::*;
use vstd::arithmetic::power2::{lemma2_to64, pow2};
use crate::jpeg_huffman::{code_of, int_code, int_value, lookup, lookup_from, table_bytes, Table};
use crate::jpeg_writer::{is_stuffed, law_stuffing, put, synced, SinkState};
use crate::ssdv::PacketModel;
use crate::ssdv_jpeg::{
    ac_symbol, ac_value, advance, announced, begun, caught_up, consume, dc_symbol, dc_value, fed,
    feed_bytes, fill_gap, headers, initial, jpeg_of, latched, law_framed, law_headers_stay,
    lemma_progress, payload_taken, put_blank, put_blank_mcus, put_blanks, put_int, put_runs, run,
    scan_data, step, table_for, with_byte, without_bits, ScanState, StepResult,
};

verus! {

/// The state after these packets.
pub open spec fn fed_all(packets: Seq<PacketModel>) -> ScanState
    decreases packets.len(),
{
    if packets.len() == 0 {
        initial()
    } else {
        fed(fed_all(packets.drop_last()), packets.last())
    }
}

/// The data is stuffed and less than a byte is pending.
spec fn clean(o: SinkState) -> bool {
    is_stuffed(o.out) && o.len < 8
}

proof fn lemma_put_int(out: SinkState, ac: bool, chroma: bool, rle: nat, value: int)
    requires
        clean(out),
    ensures
        clean(put_int(out, ac, chroma, rle, value)),
{
    let (bits, width) = int_code(value);
    let table = table_bytes(table_for(ac, chroma));
    match code_of(table, (16 * rle + width % 16) as u8) {
        Some((c, w)) => {
            law_stuffing(out, c, w);
            law_stuffing(put(out, c, w), bits, width);
        },
        None => {
            law_stuffing(out, bits, width);
        },
    }
}

proof fn lemma_put_runs(out: SinkState, chroma: bool, run: nat)
    requires
        clean(out),
    ensures
        clean(put_runs(out, chroma, run).0),
    decreases run,
{
    if run >= 16 {
        lemma_put_int(out, true, chroma, 15, 0);
        lemma_put_runs(put_int(out, true, chroma, 15, 0), chroma, (run - 16) as nat);
    }
}

proof fn lemma_put_blanks(out: SinkState, part: nat, ycparts: nat)
    requires
        clean(out),
    ensures
        clean(put_blanks(out, part, ycparts)),
    decreases ycparts + 2 - part,
{
    if part < ycparts + 2 {
        let chroma = part >= ycparts;
        lemma_put_int(out, false, chroma, 0, 0);
        lemma_put_int(put_int(out, false, chroma, 0, 0), true, chroma, 0, 0);
        lemma_put_blanks(put_blank(out, chroma), part + 1, ycparts);
    }
}

proof fn lemma_put_blank_mcus(out: SinkState, n: nat, ycparts: nat)
    requires
        clean(out),
    ensures
        clean(put_blank_mcus(out, n, ycparts)),
    decreases n,
{
    if n > 0 {
        lemma_put_blanks(out, 0, ycparts);
        lemma_put_blank_mcus(put_blanks(out, 0, ycparts), (n - 1) as nat, ycparts);
    }
}

proof fn lemma_synced(out: SinkState)
    requires
        clean(out),
    ensures
        clean(synced(out)),
{
    if out.len % 8 != 0 {
        law_stuffing(out, 0xFF, (8 - out.len % 8) as nat);
    }
}

proof fn lemma_fill_gap(s: ScanState, next: nat)
    requires
        clean(s.out),
    ensures
        clean(fill_gap(s, next).out),
{
    reveal(fill_gap);
    lemma_put_int(s.out, true, s.component != 0, 0, 0);
    let ended = if s.acpart > 0 {
        put_int(s.out, true, s.component != 0, 0, 0)
    } else {
        s.out
    };
    let part = if s.acpart > 0 {
        s.mcupart + 1
    } else {
        s.mcupart
    };
    lemma_put_blanks(ended, part, s.ycparts);
    let partial = s.mcupart > 0 || s.acpart > 0;
    let out = if partial {
        put_blanks(ended, part, s.ycparts)
    } else {
        s.out
    };
    let id = if partial {
        s.mcu_id + 1
    } else {
        s.mcu_id
    };
    let n: nat = if id < next {
        (next - id) as nat
    } else {
        0
    };
    lemma_put_blank_mcus(out, n, s.ycparts);
}

proof fn lemma_advance(s: ScanState)
    requires
        clean(s.out),
    ensures
        clean(advance(s).0.out),
{
    lemma_synced(s.out);
}

proof fn lemma_dc_clean(s: ScanState, i: int)
    requires
        clean(s.out),
    ensures
        clean(dc_symbol(s, 0).out),
        clean(dc_value(s, i).out),
{
    let c = s.component as int;
    lemma_put_int(s.out, false, s.component != 0, 0, -s.dc[c]);
    lemma_put_int(s.out, false, s.component != 0, 0, 0);
    lemma_put_int(s.out, false, c != 0, 0, i - s.dc[c]);
    lemma_put_int(s.out, false, c != 0, 0, i);
}

proof fn lemma_ac_clean(s: ScanState, symbol: u8, i: int)
    requires
        clean(s.out),
    ensures
        clean(ac_symbol(s, symbol).out),
        clean(ac_value(s, i).out),
{
    let chroma = s.component != 0;
    lemma_put_int(s.out, true, chroma, 0, 0);
    lemma_put_int(s.out, true, chroma, 15, 0);
    lemma_put_runs(s.out, chroma, s.accrle + s.acrle);
    let (out, run) = put_runs(s.out, chroma, s.accrle + s.acrle);
    lemma_put_int(out, true, chroma, run, i);
}

proof fn lemma_step(s: ScanState)
    requires
        clean(s.out),
    ensures
        clean(step(s).0.out),
{
    reveal(step);
    if s.int_next {
        if s.worklen >= s.needbits {
            let raw = s.work / pow2((s.worklen - s.needbits) as nat);
            let i = int_value(raw as int, s.needbits);
            lemma_dc_clean(s, i);
            lemma_ac_clean(s, 0, i);
            let t = if s.acpart == 0 {
                dc_value(s, i)
            } else {
                ac_value(s, i)
            };
            lemma_advance(
                consume(ScanState { acpart: t.acpart + 1, int_next: false, ..t }, s.needbits),
            );
        }
    } else {
        let l = latched(s);
        let table = table_bytes(table_for(l.acpart != 0, l.component != 0));
        if let Some((symbol, width)) = lookup(table, l.work, l.worklen) {
            lemma_dc_clean(l, 0);
            lemma_ac_clean(l, symbol, 0);
            let t = if l.acpart == 0 {
                dc_symbol(l, symbol)
            } else {
                ac_symbol(l, symbol)
            };
            lemma_advance(consume(t, width as nat));
        }
    }
}

proof fn lemma_run(s: ScanState)
    requires
        clean(s.out),
    ensures
        clean(run(s).0.out),
    decreases
            s.worklen,
            if s.int_next {
                1int
            } else {
                0int
            },
{
    lemma_progress(s);
    lemma_step(s);
    if step(s).1 == StepResult::More {
        lemma_run(step(s).0);
    }
}

proof fn lemma_feed_bytes(s: ScanState, payload: Seq<u8>, i: nat, offset: nat)
    requires
        clean(s.out),
    ensures
        clean(feed_bytes(s, payload, i, offset).0.out),
    decreases payload.len() - i,
{
    reveal(feed_bytes);
    if i < payload.len() {
        let t = if i == offset {
            without_bits(s)
        } else {
            s
        };
        let b = with_byte(t, payload[i as int]);
        lemma_run(b);
        if run(b).1 == StepResult::FeedMe {
            lemma_feed_bytes(run(b).0, payload, i + 1, offset);
        }
    }
}

proof fn lemma_fed(s: ScanState, p: PacketModel)
    requires
        clean(s.out),
    ensures
        clean(fed(s, p).out),
{
    let a = announced(begun(s, p), p);
    lemma_fill_gap(a, p.mcu_id as nat);
    let c = caught_up(a, p);
    lemma_feed_bytes(
        c,
        p.payload,
        if p.packet_id != a.expect {
            p.mcu_offset as nat
        } else {
            0
        },
        p.mcu_offset as nat,
    );
}

proof fn lemma_fed_all(packets: Seq<PacketModel>)
    ensures
        clean(fed_all(packets).out),
        fed_all(packets).started <==> packets.len() > 0,
        packets.len() > 0 ==> fed_all(packets).head == headers(
            packets[0].width,
            packets[0].height,
            packets[0].mcu_mode,
            packets[0].quality,
        ),
    decreases packets.len(),
{
    if packets.len() > 0 {
        let before = packets.drop_last();
        lemma_fed_all(before);
        lemma_fed(fed_all(before), packets.last());
        law_headers_stay(fed_all(before), packets.last());
        if before.len() > 0 {
            assert(before[0] == packets[0]);
        }
    }
}

/// The headers take 623 bytes.
proof fn lemma_headers_len(width: u16, height: u16, mcu_mode: u8, quality: u8)
    ensures
        headers(width, height, mcu_mode, quality).len() == 623,
{
    reveal(headers);
}

/// A finished file, whatever packets came: nothing if none came; else the headers, which
/// depend on the first packet alone, the scan data, in which every 0xFF is followed by a
/// stuffed zero so that it shows no marker, and the end-of-image marker.
pub proof fn law_finished_file(packets: Seq<PacketModel>)
    ensures
        packets.len() == 0 ==> jpeg_of(fed_all(packets)) == Seq::<u8>::empty(),
        packets.len() > 0 ==> {
            let file = jpeg_of(fed_all(packets));
            let first = packets[0];
            &&& file.len() >= 625
            &&& file.take(623) == headers(
                first.width,
                first.height,
                first.mcu_mode,
                first.quality,
            )
            &&& file[0] == 0xFF
            &&& file[1] == 0xD8
            &&& is_stuffed(file.subrange(623, file.len() - 2))
            &&& file[file.len() - 2] == 0xFF
            &&& file[file.len() - 1] == 0xD9
        },
{
    lemma_fed_all(packets);
    if packets.len() > 0 {
        let s = fed_all(packets);
        let first = packets[0];
        lemma_headers_len(first.width, first.height, first.mcu_mode, first.quality);
        lemma_fill_gap(s, s.mcu_count);
        let t = if s.mcu_id < s.mcu_count {
            fill_gap(s, s.mcu_count)
        } else {
            s
        };
        lemma_synced(t.out);
        let file = jpeg_of(s);
        assert(file.take(623) =~= s.head);
        assert(file.subrange(623, file.len() - 2) =~= scan_data(s));
        law_framed(
            s,
            first.width,
            first.height,
            first.mcu_mode,
            first.quality,
        );
    }
}

/// Before any code of the payload from byte `i` on is complete, its bits turn out to
/// start with none.
pub open spec fn unreadable(s: ScanState, payload: Seq<u8>, i: nat, offset: nat) -> bool
    decreases payload.len() - i,
{
    i < payload.len() && {
        let t = if i == offset {
            without_bits(s)
        } else {
            s
        };
        let (u, r) = step(with_byte(t, payload[i as int]));
        &&& i == offset ==> t.mcu_id == t.next_reset_mcu
        &&& !s.int_next
        &&& match r {
            StepResult::FeedMe => unreadable(u, payload, i + 1, offset),
            StepResult::Bad => true,
            _ => false,
        }
    }
}

proof fn lemma_unreadable(s: ScanState, payload: Seq<u8>, i: nat, offset: nat)
    requires
        unreadable(s, payload, i, offset),
    ensures
        feed_bytes(s, payload, i, offset) == (
            ScanState { work: 0, worklen: 0, reset_mcu: latched(s).reset_mcu, ..s },
            false,
        ),
    decreases payload.len() - i,
{
    reveal(feed_bytes);
    let t = if i == offset {
        without_bits(s)
    } else {
        s
    };
    let b = with_byte(t, payload[i as int]);
    let (u, r) = step(b);
    assert(u == latched(b)) by {
        reveal(step);
    }
    assert(run(b) == (u, r));
    if r == StepResult::FeedMe {
        lemma_unreadable(u, payload, i + 1, offset);
    }
}

/// The MCU that is due once the one that was begun is completed.
pub open spec fn due_mcu(s: ScanState) -> nat {
    if s.mcupart > 0 || s.acpart > 0 {
        s.mcu_id + 1
    } else {
        s.mcu_id
    }
}

/// The file does not depend on the bits at hand and on the reset MCUs.
proof fn lemma_file(s: ScanState, t: ScanState)
    requires
        t == (ScanState {
            work: t.work,
            worklen: t.worklen,
            reset_mcu: t.reset_mcu,
            next_reset_mcu: t.next_reset_mcu,
            ..s
        }),
    ensures
        jpeg_of(t) == jpeg_of(s),
{
    reveal(fill_gap);
}

/// Bits that fit no code end only their own packet: whatever packet comes next, the file
/// is the one of a builder that never got the unreadable packet. Where the next packet
/// says which MCU its first is, and that MCU can still come, the builders themselves
/// are the same from there on: the MCUs in between are filled, and those of the next
/// packet are decoded all the same. A next packet that starts no MCU is passed over
/// too. Left out is only a next packet that starts before the MCU that the unreadable
/// one announced, but not before the MCU that is due.
pub proof fn law_unreadable_packet_is_passed_over(s: ScanState, p: PacketModel, q: PacketModel)
    requires
        begun(s, p) == begun(s, q),
        p.packet_id == begun(s, p).expect,
        unreadable(announced(begun(s, p), p), p.payload, 0, p.mcu_offset as nat),
        p.packet_id < q.packet_id,
        ({
            let reset = latched(announced(begun(s, p), p)).reset_mcu;
            ||| q.mcu_id < due_mcu(begun(s, p))
            ||| reset <= q.mcu_id
            ||| reset == begun(s, p).reset_mcu
        }),
    ensures
        jpeg_of(fed(fed(s, p), q)) == jpeg_of(fed(s, q)),
        q.mcu_id != 0xFFFF && due_mcu(begun(s, p)) <= q.mcu_id && q.mcu_offset < q.payload.len()
            ==> fed(fed(s, p), q) == fed(s, q),
        q.mcu_id == 0xFFFF ==> fed(fed(s, p), q) == fed(s, p) && fed(s, q) == begun(s, q),
{
    let b = begun(s, p);
    let a = announced(b, p);
    lemma_unreadable(a, p.payload, 0, p.mcu_offset as nat);
    let u = fed(s, p);
    assert(u == ScanState { work: 0, worklen: 0, reset_mcu: latched(a).reset_mcu, ..a });
    if q.mcu_id == 0xFFFF {
        lemma_file(b, u);
    } else {
        let au = announced(begun(u, q), q);
        let plain = announced(b, q);
        let cu = caught_up(au, q);
        let cs = caught_up(plain, q);
        reveal(fill_gap);
        assert(cu == ScanState { work: u.work, worklen: u.worklen, reset_mcu: u.reset_mcu, ..cs });
        let o = q.mcu_offset as nat;
        if o >= q.payload.len() || q.mcu_id < due_mcu(b) {
            assert(feed_bytes(cu, q.payload, o, o).1 == feed_bytes(cs, q.payload, o, o).1
                && feed_bytes(cu, q.payload, o, o).0 == (ScanState {
                work: feed_bytes(cu, q.payload, o, o).0.work,
                worklen: feed_bytes(cu, q.payload, o, o).0.worklen,
                reset_mcu: u.reset_mcu,
                ..feed_bytes(cs, q.payload, o, o).0
            })) by {
                reveal(feed_bytes);
            }
            lemma_file(fed(s, q), fed(u, q));
        } else {
            let bu = with_byte(without_bits(cu), q.payload[o as int]);
            let bs = with_byte(without_bits(cs), q.payload[o as int]);
            assert(latched(bu) == latched(bs));
            assert(step(bu) == step(bs)) by {
                reveal(step);
            }
            assert(run(bu) == run(bs));
            assert(feed_bytes(cu, q.payload, o, o) == feed_bytes(cs, q.payload, o, o)) by {
                reveal(feed_bytes);
            }
        }
    }
}

proof fn lemma_blank_mcus_add(out: SinkState, m: nat, n: nat, ycparts: nat)
    ensures
        put_blank_mcus(put_blank_mcus(out, m, ycparts), n, ycparts) == put_blank_mcus(
            out,
            m + n,
            ycparts,
        ),
    decreases m,
{
    if m > 0 {
        lemma_blank_mcus_add(put_blanks(out, 0, ycparts), (m - 1) as nat, n, ycparts);
    }
}

/// Filling up to one MCU and on to a later one is filling up to the later one.
proof fn lemma_fill_twice(s: ScanState, m: nat, n: nat)
    requires
        due_mcu(s) <= m <= n,
    ensures
        fill_gap(fill_gap(s, m), n) == fill_gap(s, n),
        fill_gap(s, m).mcu_id == m,
        fill_gap(s, m).mcupart == 0,
        fill_gap(s, m).acpart == 0,
{
    reveal(fill_gap);
    let partial = s.mcupart > 0 || s.acpart > 0;
    let ended = if s.acpart > 0 {
        put_int(s.out, true, s.component != 0, 0, 0)
    } else {
        s.out
    };
    let part = if s.acpart > 0 {
        s.mcupart + 1
    } else {
        s.mcupart
    };
    let out = if partial {
        put_blanks(ended, part, s.ycparts)
    } else {
        s.out
    };
    lemma_blank_mcus_add(out, (m - due_mcu(s)) as nat, (n - m) as nat, s.ycparts);
}

/// The same of an unreadable packet ahead of the one expected: what is filled before it
/// is filled before the next packet all the same. Its first MCU is one of the image
/// that has not come yet, and the next packet does not start before it.
pub proof fn law_unreadable_packet_ahead_is_passed_over(
    s: ScanState,
    p: PacketModel,
    q: PacketModel,
)
    requires
        begun(s, p) == begun(s, q),
        p.packet_id > begun(s, p).expect,
        due_mcu(begun(s, p)) <= p.mcu_id <= begun(s, p).mcu_count,
        p.mcu_id < 0xFFFF,
        unreadable(
            caught_up(announced(begun(s, p), p), p),
            p.payload,
            p.mcu_offset as nat,
            p.mcu_offset as nat,
        ),
        p.packet_id < q.packet_id,
        p.mcu_id <= q.mcu_id,
    ensures
        jpeg_of(fed(fed(s, p), q)) == jpeg_of(fed(s, q)),
        q.mcu_id != 0xFFFF && q.mcu_offset < q.payload.len() ==> fed(fed(s, p), q) == fed(s, q),
        q.mcu_id == 0xFFFF ==> fed(fed(s, p), q) == fed(s, p) && fed(s, q) == begun(s, q),
{
    let b = begun(s, p);
    let a = announced(b, p);
    let c = caught_up(a, p);
    lemma_unreadable(c, p.payload, p.mcu_offset as nat, p.mcu_offset as nat);
    let u = fed(s, p);
    assert(u == ScanState { work: 0, worklen: 0, reset_mcu: latched(c).reset_mcu, ..c });
    if q.mcu_id == 0xFFFF {
        lemma_fill_twice(b, p.mcu_id as nat, b.mcu_count);
        reveal(fill_gap);
        assert(fill_gap(u, b.mcu_count).out == fill_gap(b, b.mcu_count).out);
        if p.mcu_id == b.mcu_count {
            assert(u.out == fill_gap(b, b.mcu_count).out);
        }
    } else {
        lemma_fill_twice(b, p.mcu_id as nat, q.mcu_id as nat);
        let cu = caught_up(announced(begun(u, q), q), q);
        let cs = caught_up(announced(b, q), q);
        reveal(fill_gap);
        assert(cu == ScanState { work: u.work, worklen: u.worklen, reset_mcu: u.reset_mcu, ..cs });
        let o = q.mcu_offset as nat;
        if o >= q.payload.len() {
            assert(feed_bytes(cu, q.payload, o, o) == (cu, true)) by {
                reveal(feed_bytes);
            }
            assert(feed_bytes(cs, q.payload, o, o) == (cs, true)) by {
                reveal(feed_bytes);
            }
            lemma_file(fed(s, q), fed(u, q));
        } else {
            let bu = with_byte(without_bits(cu), q.payload[o as int]);
            let bs = with_byte(without_bits(cs), q.payload[o as int]);
            assert(latched(bu) == latched(bs));
            assert(step(bu) == step(bs)) by {
                reveal(step);
            }
            assert(run(bu) == run(bs));
            assert(feed_bytes(cu, q.payload, o, o) == feed_bytes(cs, q.payload, o, o)) by {
                reveal(feed_bytes);
            }
        }
    }
}

proof fn lemma_ones_fit_no_code()
    ensures
        lookup(table_bytes(Table::DcLuma), 0xFF, 8) is None,
        lookup(table_bytes(Table::DcLuma), 0xFFFF, 16) == Some((0u8, 0u8)),
{
    reveal(table_bytes);
    let t = table_bytes(Table::DcLuma);
    lemma2_to64();
    assert(lookup_from(t, 0xFFFF, 16, 17, 130816, 29) == Some((0u8, 0u8)));
    assert(t[16] == 0 && (0xFFFFnat / pow2(0)) % pow2(16) == 65535);
    assert(lookup_from(t, 0xFFFF, 16, 16, 65408, 29) == Some((0u8, 0u8)));
    assert(t[15] == 0 && (0xFFFFnat / pow2(1)) % pow2(15) == 32767);
    assert(lookup_from(t, 0xFFFF, 16, 15, 32704, 29) == Some((0u8, 0u8)));
    assert(t[14] == 0 && (0xFFFFnat / pow2(2)) % pow2(14) == 16383);
    assert(lookup_from(t, 0xFFFF, 16, 14, 16352, 29) == Some((0u8, 0u8)));
    assert(t[13] == 0 && (0xFFFFnat / pow2(3)) % pow2(13) == 8191);
    assert(lookup_from(t, 0xFFFF, 16, 13, 8176, 29) == Some((0u8, 0u8)));
    assert(t[12] == 0 && (0xFFFFnat / pow2(4)) % pow2(12) == 4095);
    assert(lookup_from(t, 0xFFFF, 16, 12, 4088, 29) == Some((0u8, 0u8)));
    assert(t[11] == 0 && (0xFFFFnat / pow2(5)) % pow2(11) == 2047);
    assert(lookup_from(t, 0xFFFF, 16, 11, 2044, 29) == Some((0u8, 0u8)));
    assert(t[10] == 0 && (0xFFFFnat / pow2(6)) % pow2(10) == 1023);
    assert(lookup_from(t, 0xFFFF, 16, 10, 1022, 29) == Some((0u8, 0u8)));
    assert(t[9] == 1 && (0xFFFFnat / pow2(7)) % pow2(9) == 511);
    assert(lookup_from(t, 0xFFFF, 16, 9, 510, 28) == Some((0u8, 0u8)));
    assert(t[8] == 1 && (0xFFFFnat / pow2(8)) % pow2(8) == 255);
    assert(lookup_from(t, 0xFFFF, 16, 8, 254, 27) == Some((0u8, 0u8)));
    assert(t[7] == 1 && (0xFFFFnat / pow2(9)) % pow2(7) == 127);
    assert(lookup_from(t, 0xFFFF, 16, 7, 126, 26) == Some((0u8, 0u8)));
    assert(t[6] == 1 && (0xFFFFnat / pow2(10)) % pow2(6) == 63);
    assert(lookup_from(t, 0xFFFF, 16, 6, 62, 25) == Some((0u8, 0u8)));
    assert(t[5] == 1 && (0xFFFFnat / pow2(11)) % pow2(5) == 31);
    assert(lookup_from(t, 0xFFFF, 16, 5, 30, 24) == Some((0u8, 0u8)));
    assert(t[4] == 1 && (0xFFFFnat / pow2(12)) % pow2(4) == 15);
    assert(lookup_from(t, 0xFFFF, 16, 4, 14, 23) == Some((0u8, 0u8)));
    assert(t[3] == 5 && (0xFFFFnat / pow2(13)) % pow2(3) == 7);
    assert(lookup_from(t, 0xFFFF, 16, 3, 2, 18) == Some((0u8, 0u8)));
    assert(t[2] == 1 && (0xFFFFnat / pow2(14)) % pow2(2) == 3);
    assert(lookup_from(t, 0xFFFF, 16, 2, 0, 17) == Some((0u8, 0u8)));
    assert(t[1] == 0 && (0xFFFFnat / pow2(15)) % pow2(1) == 1);
    assert(lookup_from(t, 0xFFFF, 16, 1, 0, 17) == Some((0u8, 0u8)));
    assert(lookup_from(t, 0xFF, 8, 9, 510, 28) is None);
    assert((0xFFnat / pow2(0)) % pow2(8) == 255);
    assert(lookup_from(t, 0xFF, 8, 8, 254, 27) is None);
    assert((0xFFnat / pow2(1)) % pow2(7) == 127);
    assert(lookup_from(t, 0xFF, 8, 7, 126, 26) is None);
    assert((0xFFnat / pow2(2)) % pow2(6) == 63);
    assert(lookup_from(t, 0xFF, 8, 6, 62, 25) is None);
    assert((0xFFnat / pow2(3)) % pow2(5) == 31);
    assert(lookup_from(t, 0xFF, 8, 5, 30, 24) is None);
    assert((0xFFnat / pow2(4)) % pow2(4) == 15);
    assert(lookup_from(t, 0xFF, 8, 4, 14, 23) is None);
    assert((0xFFnat / pow2(5)) % pow2(3) == 7);
    assert(lookup_from(t, 0xFF, 8, 3, 2, 18) is None);
    assert((0xFFnat / pow2(6)) % pow2(2) == 3);
    assert(lookup_from(t, 0xFF, 8, 2, 0, 17) is None);
    assert((0xFFnat / pow2(7)) % pow2(1) == 1);
    assert(lookup_from(t, 0xFF, 8, 1, 0, 17) is None);
}

/// A packet of ones only is such a packet: sixteen ones fit no code for the first block
/// of an MCU.
pub proof fn law_ones_are_unreadable(s: ScanState, payload: Seq<u8>)
    requires
        !s.int_next,
        s.mcupart == 0,
        s.acpart == 0,
        s.component == 0,
        s.mcu_id == s.next_reset_mcu,
        payload.len() >= 2,
        payload[0] == 0xFF,
        payload[1] == 0xFF,
    ensures
        unreadable(s, payload, 0, 0),
{
    lemma_ones_fit_no_code();
    reveal(step);
    reveal_with_fuel(unreadable, 3);
    let b = with_byte(without_bits(s), payload[0]);
    assert(b.work == 0xFF && b.worklen == 8);
    let c = with_byte(latched(b), payload[1]);
    assert(c.work == 0xFFFF && c.worklen == 16);
}

/// The bits of the payload from byte `i` on come to a place where they start with no
/// code.
pub open spec fn spoiled(s: ScanState, payload: Seq<u8>, i: nat, offset: nat) -> bool
    decreases payload.len() - i,
{
    i < payload.len() && {
        let t = if i == offset {
            without_bits(s)
        } else {
            s
        };
        let (u, r) = run(with_byte(t, payload[i as int]));
        &&& i == offset ==> t.mcu_id == t.next_reset_mcu
        &&& match r {
            StepResult::FeedMe => spoiled(u, payload, i + 1, offset),
            StepResult::Bad => true,
            _ => false,
        }
    }
}

proof fn lemma_spoiled(s: ScanState, payload: Seq<u8>, i: nat, offset: nat)
    requires
        spoiled(s, payload, i, offset),
    ensures
        !feed_bytes(s, payload, i, offset).1,
        feed_bytes(s, payload, i, offset).0.worklen == 0,
        feed_bytes(s, payload, i, offset).0.expect == s.expect,
    decreases payload.len() - i,
{
    reveal(feed_bytes);
    let t = if i == offset {
        without_bits(s)
    } else {
        s
    };
    let b = with_byte(t, payload[i as int]);
    lemma_run_expect(b);
    if run(b).1 == StepResult::FeedMe {
        lemma_spoiled(run(b).0, payload, i + 1, offset);
    }
}

proof fn lemma_run_expect(s: ScanState)
    ensures
        run(s).0.expect == s.expect,
    decreases
            s.worklen,
            if s.int_next {
                1int
            } else {
                0int
            },
{
    lemma_progress(s);
    let (t, r) = step(s);
    assert(t.expect == s.expect) by {
        reveal(step);
    }
    if r == StepResult::More {
        lemma_run_expect(t);
    }
}

/// A packet that is spoiled somewhere is not waited for and leaves no bits behind: what
/// was decoded before stays, and a later packet that says where it begins is taken up at
/// the start of that MCU.
pub proof fn law_spoiled_packet_ends(s: ScanState, p: PacketModel, q: PacketModel)
    requires
        s.started,
        p.packet_id == s.expect,
        spoiled(announced(s, p), p.payload, 0, p.mcu_offset as nat),
        p.packet_id < q.packet_id,
        q.mcu_id != 0xFFFF,
        due_mcu(fed(s, p)) <= q.mcu_id,
    ensures
        fed(s, p).worklen == 0,
        fed(s, p).expect == p.packet_id,
        ({
            let c = caught_up(announced(fed(s, p), q), q);
            &&& fed(fed(s, p), q) == payload_taken(c, q, q.mcu_offset as nat)
            &&& c.mcu_id == q.mcu_id
            &&& c.next_reset_mcu == q.mcu_id
            &&& c.mcupart == 0
            &&& c.acpart == 0
            &&& !c.int_next
        }),
{
    lemma_spoiled(announced(s, p), p.payload, 0, p.mcu_offset as nat);
    law_headers_stay(s, p);
    reveal(fill_gap);
}

} // verus!
