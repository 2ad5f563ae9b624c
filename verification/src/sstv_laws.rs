//! What holds of the search for a VIS code, whatever the samples are like, and of the rows
//! that share their chroma.
use vstd::prelude::*;
use crate::sstv::{
    alone, break_range, first_break, first_leader, first_phase, leader_begin, mates, paint_plan,
    read_bits, vis_result, Oracle, Probe, RowPaint, SstvMode, Tone, VisPhase, VisTiming,
};

verus! {

/// The tone is there in the samples `start..start + len`.
pub open spec fn heard(o: Oracle, tone: Tone, start: int, len: usize) -> bool {
    o(Probe { tone, start: start as usize, len })
}

/// The leader is there `k` steps from the first sample.
pub open spec fn leader_at_step(o: Oracle, t: VisTiming, k: int) -> bool {
    heard(o, Tone::Leader, k * t.step, t.leader)
}

/// The leader is there `k` fine steps before `start`.
pub open spec fn leader_before(o: Oracle, t: VisTiming, start: int, k: int) -> bool {
    heard(o, Tone::Leader, start - k * t.fine, t.leader)
}

/// The break is there `k` fine steps behind `first`.
pub open spec fn break_behind(o: Oracle, t: VisTiming, first: int, k: int) -> bool {
    heard(o, Tone::Break, first + k * t.fine, t.break_pulse)
}

/// Bit `i` of eight, of which the first begins at `data`.
pub open spec fn code_bit(o: Oracle, t: VisTiming, data: int, i: int) -> int {
    if heard(o, Tone::DataBit, data + i * t.bit, t.bit) {
        1
    } else {
        0
    }
}

/// The number in seven bits, the low one first.
pub open spec fn code_at(o: Oracle, t: VisTiming, data: int) -> int {
    code_bit(o, t, data, 0) + 2 * code_bit(o, t, data, 1) + 4 * code_bit(o, t, data, 2) + 8
        * code_bit(o, t, data, 3) + 16 * code_bit(o, t, data, 4) + 32 * code_bit(o, t, data, 5) + 64
        * code_bit(o, t, data, 6)
}

/// The number of ones among the seven bits and the parity bit.
pub open spec fn ones_at(o: Oracle, t: VisTiming, data: int) -> int {
    code_bit(o, t, data, 0) + code_bit(o, t, data, 1) + code_bit(o, t, data, 2) + code_bit(
        o,
        t,
        data,
        3,
    ) + code_bit(o, t, data, 4) + code_bit(o, t, data, 5) + code_bit(o, t, data, 6) + code_bit(
        o,
        t,
        data,
        7,
    )
}

/// Behind a break at `b` come the second leader, the start bit and eight bits of even
/// parity that name this mode.
pub open spec fn names_mode(o: Oracle, t: VisTiming, b: int, mode: SstvMode) -> bool {
    let second = b + t.break_pulse;
    let start = second + t.leader;
    let data = start + t.start_bit;
    &&& heard(o, Tone::SecondLeader, second, t.leader)
    &&& heard(o, Tone::StartBit, start, t.start_bit)
    &&& ones_at(o, t, data) % 2 == 0
    &&& code_at(o, t, data) == match mode {
        SstvMode::Robot36 => 0x08int,
        SstvMode::Pd120 => 0x5fint,
    }
}

/// Where a header ends whose break is at `b`: behind the break, the second leader, the
/// start bit, eight bits and the stop bit.
pub open spec fn header_end(t: VisTiming, b: int) -> int {
    b + t.break_pulse + t.leader + t.start_bit + t.bit + t.bit + t.bit + t.bit + t.bit + t.bit
        + t.bit + t.bit + t.bit
}

/// The leader is met for the first time after `n` steps, with a whole header to come.
pub open spec fn leader_met(o: Oracle, t: VisTiming, len: int, n: int) -> bool {
    &&& 0 <= n
    &&& header_end(t, n * t.step + t.leader) < len
    &&& leader_at_step(o, t, n)
    &&& forall|k: int| 0 <= k < n ==> !#[trigger] leader_at_step(o, t, k)
}

/// The leader goes back from `start` by `w` fine steps.
pub open spec fn leader_goes_back(o: Oracle, t: VisTiming, start: int, w: int) -> bool {
    &&& 0 <= w
    &&& w * t.fine <= start
    &&& forall|k: int| 1 <= k <= w ==> #[trigger] leader_before(o, t, start, k)
    &&& start - w * t.fine < t.fine || !leader_before(o, t, start, w + 1)
}

/// The first place at which the break is looked for, where the leader begins at `begin`.
pub open spec fn first_place(t: VisTiming, begin: int) -> int {
    if begin + t.leader < t.window {
        0
    } else {
        begin + t.leader - t.window
    }
}

/// The break is met for the first time at `c` fine steps behind `first`, and not beyond
/// the window around its place.
pub open spec fn break_met(
    o: Oracle,
    t: VisTiming,
    len: int,
    begin: int,
    c: int,
) -> bool {
    let first = first_place(t, begin);
    &&& 0 <= c
    &&& first + c * t.fine <= begin + t.leader + t.window
    &&& first + c * t.fine + t.break_pulse <= len
    &&& break_behind(o, t, first, c)
    &&& forall|k: int| 0 <= k < c ==> !#[trigger] break_behind(o, t, first, k)
}

proof fn lemma_next(k: int, step: int)
    ensures
        k * step + step == (k + 1) * step,
        0 <= k && 0 <= step ==> 0 <= k * step,
{
    assert(k * step + step == (k + 1) * step) by (nonlinear_arith);
    if 0 <= k && 0 <= step {
        assert(0 <= k * step) by (nonlinear_arith)
            requires
                0 <= k,
                0 <= step,
        ;
    }
}

proof fn lemma_monotone(a: int, b: int, step: int)
    requires
        a <= b,
        0 < step,
    ensures
        a * step <= b * step,
        a < b ==> a * step + step <= b * step,
{
    assert(a * step <= b * step) by (nonlinear_arith)
        requires
            a <= b,
            0 < step,
    ;
    if a < b {
        assert(a * step + step <= b * step) by (nonlinear_arith)
            requires
                a < b,
                0 < step,
        ;
    }
}

proof fn lemma_first_leader(o: Oracle, t: VisTiming, len: int, n: int, k: int)
    requires
        t.ok(),
        len <= usize::MAX,
        leader_met(o, t, len, n),
        0 <= k <= n,
    ensures
        first_leader(o, t, (k * t.step) as nat, len - t.total()) == Some((n * t.step) as nat),
    decreases n - k,
{
    lemma_next(k, t.step as int);
    lemma_monotone(k, n, t.step as int);
    assert(len - t.total() > n * t.step);
    if k < n {
        assert(!leader_at_step(o, t, k));
        lemma_first_leader(o, t, len, n, k + 1);
    } else {
        assert(leader_at_step(o, t, n));
    }
}

proof fn lemma_no_leader(o: Oracle, t: VisTiming, len: int, k: int)
    requires
        t.ok(),
        len <= usize::MAX,
        0 <= k,
        forall|n: int| !#[trigger] leader_met(o, t, len, n),
        forall|j: int| 0 <= j < k ==> !#[trigger] leader_at_step(o, t, j),
    ensures
        first_leader(o, t, (k * t.step) as nat, len - t.total()) is None,
    decreases
            if k * t.step < len {
                len - k * t.step
            } else {
                0
            },
{
    lemma_next(k, t.step as int);
    if k * t.step < len - t.total() {
        assert(!leader_met(o, t, len, k));
        assert(!leader_at_step(o, t, k));
        lemma_no_leader(o, t, len, k + 1);
    }
}

proof fn lemma_leader_begin(o: Oracle, t: VisTiming, start: int, w: int, k: int)
    requires
        t.ok(),
        start <= usize::MAX,
        leader_goes_back(o, t, start, w),
        0 <= k <= w,
    ensures
        leader_begin(o, t, (start - k * t.fine) as nat) == start - w * t.fine,
    decreases w - k,
{
    lemma_next(k, t.fine as int);
    lemma_monotone(k, w, t.fine as int);
    if k < w {
        assert(leader_before(o, t, start, k + 1));
        lemma_leader_begin(o, t, start, w, k + 1);
    }
}

proof fn lemma_first_break(
    o: Oracle,
    t: VisTiming,
    len: int,
    begin: int,
    c: int,
    k: int,
)
    requires
        t.ok(),
        len <= usize::MAX,
        0 <= begin,
        break_met(o, t, len, begin, c),
        0 <= k <= c,
    ensures
        ({
            let (lo, hi) = break_range(t, len, begin as nat);
            &&& lo == first_place(t, begin)
            &&& first_break(o, t, (lo + k * t.fine) as nat, hi) == Some((lo + c * t.fine) as nat)
        }),
    decreases c - k,
{
    lemma_next(k, t.fine as int);
    lemma_monotone(k, c, t.fine as int);
    let first = first_place(t, begin);
    if k < c {
        assert(!break_behind(o, t, first, k));
        lemma_first_break(o, t, len, begin, c, k + 1);
    } else {
        assert(break_behind(o, t, first, c));
    }
}

proof fn lemma_no_break(o: Oracle, t: VisTiming, len: int, begin: int, k: int)
    requires
        t.ok(),
        len <= usize::MAX,
        0 <= begin,
        0 <= k,
        forall|c: int| !#[trigger] break_met(o, t, len, begin, c),
        forall|j: int|
            0 <= j < k ==> !#[trigger] break_behind(o, t, first_place(t, begin), j),
    ensures
        ({
            let (lo, hi) = break_range(t, len, begin as nat);
            first_break(o, t, (lo + k * t.fine) as nat, hi) is None
        }),
    decreases
            if k * t.fine <= len {
                len + 1 - k * t.fine
            } else {
                0
            },
{
    lemma_next(k, t.fine as int);
    let (lo, hi) = break_range(t, len, begin as nat);
    if lo + k * t.fine <= hi {
        assert(!break_met(o, t, len, begin, k));
        assert(!break_behind(o, t, first_place(t, begin), k));
        lemma_no_break(o, t, len, begin, k + 1);
    }
}

proof fn lemma_read(o: Oracle, t: VisTiming, data: int)
    requires
        0 <= data,
    ensures
        read_bits(o, t, data as nat, 0, 0, 0) == (
            code_at(o, t, data) as nat,
            ones_at(o, t, data) as nat,
        ),
        0 <= code_at(o, t, data) < 128,
        0 <= ones_at(o, t, data),
{
    reveal_with_fuel(read_bits, 9);
}

/// A header gives its mode, and the sample behind its stop bit. Where the leader is met
/// after `n` steps and goes back by `w` fine ones, and the break is met `c` fine steps
/// into its window, the search comes to exactly what stands behind that break: the mode
/// named there, and the end of the header counted from that break, whatever the lengths
/// of the parts are. If the header is not whole, or names no mode, there is nothing.
pub proof fn law_header_is_read(
    o: Oracle,
    t: VisTiming,
    len: int,
    n: int,
    w: int,
    c: int,
    mode: SstvMode,
)
    requires
        t.ok(),
        len <= usize::MAX,
        leader_met(o, t, len, n),
        leader_goes_back(o, t, n * t.step, w),
        break_met(o, t, len, n * t.step - w * t.fine, c),
    ensures
        ({
            let begin = n * t.step - w * t.fine;
            let b = first_place(t, begin) + c * t.fine;
            &&& header_end(t, b) <= len && names_mode(o, t, b, mode) ==> vis_result(o, t, len)
                == Some((mode, header_end(t, b) as usize))
            &&& header_end(t, b) > len ==> vis_result(o, t, len) is None
            &&& !names_mode(o, t, b, SstvMode::Robot36) && !names_mode(o, t, b, SstvMode::Pd120)
                ==> vis_result(o, t, len) is None
        }),
{
    let start = n * t.step;
    let begin = start - w * t.fine;
    let b = first_place(t, begin) + c * t.fine;
    lemma_next(n, t.step as int);
    lemma_next(c, t.fine as int);
    assert(0 * t.step == 0) by (nonlinear_arith);
    assert(0 * t.fine == 0) by (nonlinear_arith);
    lemma_first_leader(o, t, len, n, 0);
    lemma_leader_begin(o, t, start, w, 0);
    lemma_first_break(o, t, len, begin, c, 0);
    let data = b + t.break_pulse + t.leader + t.start_bit;
    lemma_read(o, t, data);
    assert(header_end(t, b) == data + 9 * t.bit);
}

/// Without a leader on the steps there is nothing, and neither is there without a break
/// in the window behind it.
pub proof fn law_no_header_no_picture(o: Oracle, t: VisTiming, len: int, n: int, w: int)
    requires
        t.ok(),
        0 <= len <= usize::MAX,
        (forall|k: int| !#[trigger] leader_met(o, t, len, k)) || (leader_met(o, t, len, n)
            && leader_goes_back(o, t, n * t.step, w) && forall|c: int|
            !#[trigger] break_met(o, t, len, n * t.step - w * t.fine, c)),
    ensures
        vis_result(o, t, len) is None,
{
    assert(0 * t.step == 0) by (nonlinear_arith);
    assert(0 * t.fine == 0) by (nonlinear_arith);
    if forall|k: int| !#[trigger] leader_met(o, t, len, k) {
        lemma_no_leader(o, t, len, 0);
    } else {
        lemma_first_leader(o, t, len, n, 0);
        lemma_next(n, t.step as int);
        lemma_leader_begin(o, t, n * t.step, w, 0);
        lemma_no_break(o, t, len, n * t.step - w * t.fine, 0);
    }
}

proof fn lemma_rows(is_cr: Seq<bool>, row: int, held: bool, first: int)
    requires
        0 <= first <= row <= is_cr.len() <= usize::MAX,
        held ==> first == row - 1,
        !held ==> first == row,
    ensures
        paint_plan(is_cr, row, held).len() == is_cr.len() - first,
        forall|r: int|
            first <= r < is_cr.len() ==> #[trigger] painted_as_should(
                is_cr,
                paint_plan(is_cr, row, held),
                first,
                r,
            ),
    decreases is_cr.len() - row,
{
    let plan = paint_plan(is_cr, row, held);
    if row < is_cr.len() {
        if !held {
            lemma_rows(is_cr, row + 1, true, row);
        } else if is_cr[row - 1] != is_cr[row] {
            lemma_rows(is_cr, row + 1, false, row + 1);
            let rest = paint_plan(is_cr, row + 1, false);
            assert(plan =~= mates(is_cr, row - 1, row) + rest);
            assert forall|r: int| first <= r < is_cr.len() implies #[trigger] painted_as_should(
                is_cr,
                plan,
                first,
                r,
            ) by {
                if r >= row + 1 {
                    assert(painted_as_should(is_cr, rest, row + 1, r));
                    let k = r - first;
                    assert(plan[k] == rest[k - 2]);
                    if r + 1 < is_cr.len() {
                        assert(plan[k + 1] == rest[k - 1]);
                    }
                    if r > row + 1 {
                        assert(plan[k - 1] == rest[k - 3]);
                    }
                }
            }
        } else {
            lemma_rows(is_cr, row + 1, true, row);
            let rest = paint_plan(is_cr, row + 1, true);
            assert(plan =~= alone(row - 1) + rest);
            assert forall|r: int| first <= r < is_cr.len() implies #[trigger] painted_as_should(
                is_cr,
                plan,
                first,
                r,
            ) by {
                if r >= row {
                    assert(painted_as_should(is_cr, rest, row, r));
                    let k = r - first;
                    assert(plan[k] == rest[k - 1]);
                    if r + 1 < is_cr.len() {
                        assert(plan[k + 1] == rest[k]);
                    }
                    if r > row {
                        assert(plan[k - 1] == rest[k - 2]);
                    }
                }
            }
        }
    } else if held {
        assert(plan =~= alone(row - 1));
    }
}

/// A row takes both differences from itself, or one from itself and one from a row next to
/// it that takes the same two. It is on its own only if the next row has the same
/// difference, or if there is none.
pub open spec fn painted_as_should(
    is_cr: Seq<bool>,
    plan: Seq<RowPaint>,
    first: int,
    r: int,
) -> bool {
    let p = plan[r - first];
    let next = plan[r + 1 - first];
    let before = plan[r - 1 - first];
    &&& p.row == r
    &&& {
        ||| p.cb_row == r && p.cr_row == r && (r + 1 < is_cr.len() ==> is_cr[r + 1] == is_cr[r])
        ||| r + 1 < is_cr.len() && is_cr[r + 1] != is_cr[r] && next.cb_row == p.cb_row
            && next.cr_row == p.cr_row && (if is_cr[r] {
            p.cr_row == r && p.cb_row == r + 1
        } else {
            p.cb_row == r && p.cr_row == r + 1
        })
        ||| r > first && is_cr[r - 1] != is_cr[r] && before.cb_row == p.cb_row && before.cr_row
            == p.cr_row && (if is_cr[r] {
            p.cr_row == r && p.cb_row == r - 1
        } else {
            p.cb_row == r && p.cr_row == r - 1
        })
    }
}

/// Each row takes the difference that it has from itself and the other one from its mate:
/// the next row, if that one has the other difference and has no mate yet.
pub proof fn law_mates_are_neighbours(is_cr: Seq<bool>, r: int)
    requires
        is_cr.len() <= usize::MAX,
        0 <= r < is_cr.len(),
    ensures
        paint_plan(is_cr, 0, false).len() == is_cr.len(),
        painted_as_should(is_cr, paint_plan(is_cr, 0, false), 0, r),
{
    lemma_rows(is_cr, 0, false, 0);
}

/// Pictures of the two modes have these columns and rows.
pub proof fn law_picture_sizes(mode: SstvMode)
    ensures
        mode == SstvMode::Robot36 ==> mode.spec_width() == 320 && mode.spec_height() == 240,
        mode == SstvMode::Pd120 ==> mode.spec_width() == 640 && mode.spec_height() == 496,
{
}

/// A search begins with the leader at the first sample, where there are samples for a whole
/// header and more.
pub proof fn law_search_begins(t: VisTiming, len: int)
    ensures
        len <= 2 * t.leader + t.break_pulse + t.start_bit + 9 * t.bit ==> first_phase(t, len) == (
        VisPhase::Done { found: None }),
        len > 2 * t.leader + t.break_pulse + t.start_bit + 9 * t.bit ==> first_phase(t, len) == (
        VisPhase::FindLeader { start: 0 }),
{
}

} // verus!
