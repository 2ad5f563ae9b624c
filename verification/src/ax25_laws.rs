//! Which payloads are AX.25 frames, and what the bytes of their addresses say.
use vstd::prelude::*;
use crate::ax25::{
    address_at, address_count, ax25_frame, ax25_result, call_bytes_ok, call_text, is_call_byte,
    is_callsign, is_last, present_fields, trimmed_len, Ax25Frame, Callsign,
};
use crate::model::DecodeError;

verus! {

proof fn lemma_address_bits(b: u8)
    by (bit_vector)
    ensures
        b >> 1u8 == b / 2,
        (b >> 1u8) & 0x0fu8 == (b / 2) % 16,
        b & 0x80u8 != 0 <==> b >= 128,
        b & 1u8 != 0 <==> b % 2 == 1,
{
}

/// The number is that of a letter or a figure, or of a space.
pub open spec fn may_stand_in_a_call(c: int) -> bool {
    c == 0x20 || 0x30 <= c <= 0x39 || 0x41 <= c <= 0x5A || 0x61 <= c <= 0x7A
}

/// The address field at `at` holds letters, figures and spaces, in the seven high bits of its
/// first six bytes.
pub open spec fn readable_address(payload: Seq<u8>, at: int) -> bool {
    forall|i: int| 0 <= i < 6 ==> may_stand_in_a_call(#[trigger] payload[at + i] as int / 2)
}

/// The station is the one in the address field at `at`: its call is what stands before the
/// spaces at the end, in capitals, and its SSID four bits of the seventh byte. A repeater
/// has repeated the frame if the highest bit of that is set.
pub open spec fn stands_in(c: Callsign, payload: Seq<u8>, at: int, repeater: bool) -> bool {
    let n = c.call@.len() as int;
    &&& n <= 6
    &&& n > 0 ==> payload[at + n - 1] as int / 2 != 0x20
    &&& forall|i: int| n <= i < 6 ==> #[trigger] payload[at + i] as int / 2 == 0x20
    &&& forall|i: int|
        0 <= i < n ==> #[trigger] c.call@[i] as int == {
            let v = payload[at + i] as int / 2;
            if 0x61 <= v <= 0x7A {
                v - 0x20
            } else {
                v
            }
        }
    &&& c.ssid == payload[at + 6] as int / 2 % 16
    &&& c.repeated <==> repeater && payload[at + 6] >= 128
}

/// There are `n` address fields: in the last one the lowest bit of the seventh byte is set,
/// and in no other behind the first.
pub open spec fn has_addresses(payload: Seq<u8>, n: nat) -> bool {
    &&& n >= 2
    &&& 7 * n <= payload.len()
    &&& payload[7 * n - 1] % 2 == 1
    &&& forall|m: int| 2 <= m < n ==> payload[#[trigger] (7 * m) - 1] % 2 == 0
}

proof fn lemma_count(payload: Seq<u8>, k: nat)
    ensures
        match address_count(payload, k) {
            Some(n) => n > k && 7 * n <= payload.len() && payload[7 * n - 1] % 2 == 1 && forall|
                m: int,
            |
                k < m < n ==> payload[#[trigger] (7 * m) - 1] % 2 == 0,
            None => forall|m: int|
                k < m && 7 * m <= payload.len() ==> payload[#[trigger] (7 * m) - 1] % 2 == 0,
        },
    decreases payload.len() - 7 * k,
{
    if payload.len() >= 7 * k + 7 {
        lemma_address_bits(payload[7 * k as int + 6]);
        assert(7 * (k + 1) - 1 == 7 * k + 6);
        if !is_last(payload, k as int) {
            lemma_count(payload, k + 1);
            assert forall|m: int| k < m && 7 * m <= payload.len() && (address_count(
                payload,
                k,
            ) is None || m < address_count(payload, k)->Some_0) implies payload[#[trigger] (7 * m)
                - 1] % 2 == 0 by {
                if m == k + 1 {
                    assert(payload[7 * m - 1] == payload[7 * k as int + 6]);
                }
            }
        }
    }
}

/// The address fields end with the one that says so, and there are at least two.
pub proof fn law_addresses_end(payload: Seq<u8>, n: nat)
    ensures
        address_count(payload, 1) == Some(n) <==> has_addresses(payload, n),
{
    lemma_count(payload, 1);
    if has_addresses(payload, n) {
        match address_count(payload, 1) {
            Some(a) => {
                if a < n {
                    assert(payload[7 * (a as int) - 1] % 2 == 0);
                } else if a > n {
                    assert(payload[7 * (n as int) - 1] % 2 == 0);
                }
            },
            None => {
                assert(payload[7 * (n as int) - 1] % 2 == 0);
            },
        }
    }
}

proof fn lemma_readable(payload: Seq<u8>, k: int)
    requires
        0 <= k,
        7 * k + 7 <= payload.len(),
    ensures
        call_bytes_ok(address_at(payload, k)) <==> readable_address(payload, 7 * k),
{
    let a = address_at(payload, k);
    assert forall|i: int| 0 <= i < 6 implies a[i] == payload[7 * k + i] && (is_call_byte(
        #[trigger] a[i],
    ) <==> may_stand_in_a_call(payload[7 * k + i] as int / 2)) by {
        lemma_address_bits(a[i]);
    }
    if call_bytes_ok(a) {
        assert forall|i: int| 0 <= i < 6 implies may_stand_in_a_call(
            #[trigger] payload[7 * k + i] as int / 2,
        ) by {
            assert(is_call_byte(a[i]));
        }
    }
    if readable_address(payload, 7 * k) {
        assert forall|i: int| 0 <= i < 6 implies is_call_byte(#[trigger] a[i]) by {
            assert(may_stand_in_a_call(payload[7 * k + i] as int / 2));
        }
    }
}

proof fn lemma_trimmed(a: Seq<u8>, n: nat)
    ensures
        trimmed_len(a, n) <= n,
        trimmed_len(a, n) > 0 ==> a[trimmed_len(a, n) - 1] >> 1u8 != 32,
        forall|i: int| trimmed_len(a, n) <= i < n ==> #[trigger] a[i] >> 1u8 == 32,
    decreases n,
{
    if n > 0 && a[n - 1] >> 1u8 == 32 {
        lemma_trimmed(a, (n - 1) as nat);
    }
}

proof fn lemma_stands_in(payload: Seq<u8>, k: int, repeater: bool, c: Callsign)
    requires
        0 <= k,
        7 * k + 7 <= payload.len(),
        readable_address(payload, 7 * k),
        is_callsign(address_at(payload, k), repeater, c),
    ensures
        stands_in(c, payload, 7 * k, repeater),
{
    let a = address_at(payload, k);
    let n = c.call@.len() as int;
    lemma_trimmed(a, 6);
    lemma_address_bits(a[6]);
    assert(a[6] == payload[7 * k as int + 6]);
    if n > 0 {
        lemma_address_bits(a[n - 1]);
        assert(a[n - 1] == payload[7 * k + n - 1]);
    }
    assert forall|i: int| n <= i < 6 implies #[trigger] payload[7 * k + i] as int / 2 == 0x20 by {
        assert(a[i] == payload[7 * k + i]);
        lemma_address_bits(a[i]);
        assert(a[i] >> 1u8 == 32);
    }
    assert forall|i: int| 0 <= i < n implies #[trigger] c.call@[i] as int == {
        let v = payload[7 * k + i] as int / 2;
        if 0x61 <= v <= 0x7A {
            v - 0x20
        } else {
            v
        }
    } by {
        assert(a[i] == payload[7 * k + i]);
        lemma_address_bits(a[i]);
        assert(may_stand_in_a_call(payload[7 * k + i] as int / 2));
        assert(call_text(a)[i] == crate::text::upper(a[i] >> 1u8) as char);
    }
}

/// A payload with readable addresses and something behind them is a frame: it is for the
/// first station and from the second, by way of the others, and holds a control byte, in a
/// UI frame a protocol byte, and information.
pub proof fn law_frames_are_read(payload: Seq<u8>, n: nat, res: Result<Ax25Frame, DecodeError>)
    requires
        has_addresses(payload, n),
        forall|k: int| 0 <= k < n ==> readable_address(payload, #[trigger] (7 * k)),
        payload.len() > 7 * n,
        payload[7 * n as int] == 0x03 ==> payload.len() > 7 * n + 1,
        ax25_result(payload, res),
    ensures
        res is Ok,
        stands_in(res->Ok_0.destination, payload, 0, false),
        stands_in(res->Ok_0.source, payload, 7, false),
        res->Ok_0.digipeaters@.len() == n - 2,
        forall|k: int|
            2 <= k < n ==> stands_in(
                #[trigger] res->Ok_0.digipeaters@[k - 2],
                payload,
                7 * k,
                true,
            ),
        res->Ok_0.control == payload[7 * n as int],
        payload[7 * n as int] == 0x03 ==> res->Ok_0.pid == Some(payload[7 * n as int + 1]),
        payload[7 * n as int] == 0x03 ==> res->Ok_0.info@ == payload.skip(7 * n as int + 2),
        payload[7 * n as int] != 0x03 ==> res->Ok_0.pid is None,
        payload[7 * n as int] != 0x03 ==> res->Ok_0.info@ == payload.skip(7 * n as int + 1),
{
    law_addresses_end(payload, n);
    assert forall|k: int| 0 <= k < n implies call_bytes_ok(#[trigger] address_at(payload, k)) by {
        assert(readable_address(payload, 7 * k));
        lemma_readable(payload, k);
    }
    let f = res->Ok_0;
    assert(ax25_frame(payload, n, f));
    assert(readable_address(payload, 7 * 0int));
    assert(readable_address(payload, 7 * 1int));
    lemma_stands_in(payload, 0, false, f.destination);
    lemma_stands_in(payload, 1, false, f.source);
    assert forall|k: int| 2 <= k < n implies stands_in(
        #[trigger] f.digipeaters@[k - 2],
        payload,
        7 * k,
        true,
    ) by {
        assert(readable_address(payload, 7 * k));
        assert(is_callsign(address_at(payload, k), true, f.digipeaters@[k - 2]));
        lemma_stands_in(payload, k, true, f.digipeaters@[k - 2]);
    }
}

/// Other payloads are refused: as too short if they end before two addresses, before the
/// last address, before the control byte or before the protocol byte of a UI frame, and
/// as wrongly encoded if an address cannot be read.
pub proof fn law_other_payloads_are_refused(
    payload: Seq<u8>,
    n: nat,
    res: Result<Ax25Frame, DecodeError>,
)
    requires
        ax25_result(payload, res),
    ensures
        payload.len() < 14 ==> (res matches Err(DecodeError::TooShort(len)) && len
            == payload.len()),
        has_addresses(payload, n) && (forall|k: int|
            0 <= k < n ==> readable_address(payload, #[trigger] (7 * k))) && (payload.len() == 7
            * n || (payload.len() == 7 * n + 1 && payload[7 * n as int] == 0x03)) ==> (res matches Err(
            DecodeError::TooShort(len),
        ) && len == payload.len()),
        has_addresses(payload, n) && (exists|k: int|
            0 <= k < n && !readable_address(payload, #[trigger] (7 * k))) ==> (res matches Err(
            DecodeError::InvalidEncoding(_),
        )),
        payload.len() >= 14 && (forall|m: nat| !#[trigger] has_addresses(payload, m)) ==> res is Err,
{
    if has_addresses(payload, n) {
        law_addresses_end(payload, n);
        if exists|k: int| 0 <= k < n && !readable_address(payload, #[trigger] (7 * k)) {
            let k = choose|k: int| 0 <= k < n && !readable_address(payload, #[trigger] (7 * k));
            lemma_readable(payload, k);
            assert(present_fields(payload) == n);
            assert(!call_bytes_ok(address_at(payload, k)));
        } else {
            assert forall|k: int| 0 <= k < n implies call_bytes_ok(
                #[trigger] address_at(payload, k),
            ) by {
                assert(readable_address(payload, 7 * k));
                lemma_readable(payload, k);
            }
        }
    }
    if payload.len() >= 14 && (forall|m: nat| !#[trigger] has_addresses(payload, m)) {
        if let Some(m) = address_count(payload, 1) {
            law_addresses_end(payload, m);
        }
    }
}

} // verus!
