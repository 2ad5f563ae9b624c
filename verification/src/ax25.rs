//! AX.25 frame decoder.
//!
//! AX.25 encodes each address as six left-shifted ASCII callsign bytes followed
//! by one SSID byte. This decoder consumes an HDLC payload after bit-unstuffing
//! and FCS stripping, and returns a structured AX.25 frame.
use vstd::prelude::*;
use crate::model::{invalid_encoding, DecodeError, Frame};
use crate::slices::copy_range;
use crate::text::{ascii_alphanumeric, ascii_upper, hex_byte, is_alphanumeric, push_hex, upper};

verus! {

/// Length of an address field.
pub const ADDRESS_LEN: usize = 7;

/// Control byte of an unnumbered information frame.
pub const UI_CONTROL: u8 = 0x03;

/// AX.25 payload decoder.
#[derive(Debug, Clone, Copy)]
pub struct Ax25Decoder;

/// Decoded AX.25 frame.
#[derive(Debug)]
pub struct Ax25Frame {
    /// Destination address.
    pub destination: Callsign,
    /// Source address.
    pub source: Callsign,
    /// Optional digipeater path.
    pub digipeaters: Vec<Callsign>,
    /// AX.25 control byte.
    pub control: u8,
    /// Protocol ID byte, present for UI frames.
    pub pid: Option<u8>,
    /// Information field bytes.
    pub info: Vec<u8>,
}

/// AX.25 callsign and SSID pair.
#[derive(Debug)]
pub struct Callsign {
    /// Callsign text, trimmed of AX.25 space padding and converted to ASCII
    /// uppercase.
    pub call: String,
    /// Secondary station identifier, in the range `0..=15`.
    pub ssid: u8,
    /// Whether a digipeater has repeated this frame.
    pub repeated: bool,
}

/// A byte that may stand in the callsign part of an address.
pub open spec fn is_call_byte(byte: u8) -> bool {
    let c = byte >> 1u8;
    c == 32 || is_alphanumeric(c)
}

/// The number of characters up to the last one that is no space, among the first `n`.
pub open spec fn trimmed_len(address: Seq<u8>, n: nat) -> nat
    decreases n,
{
    if n == 0 {
        0
    } else if address[n - 1] >> 1u8 != 32 {
        n
    } else {
        trimmed_len(address, (n - 1) as nat)
    }
}

/// The callsign text of an address.
pub open spec fn call_text(address: Seq<u8>) -> Seq<char> {
    Seq::new(trimmed_len(address, 6), |i: int| upper(address[i] >> 1u8) as char)
}

/// The callsign that an address decodes to.
pub open spec fn is_callsign(address: Seq<u8>, digipeater: bool, c: Callsign) -> bool {
    &&& c.call@ == call_text(address)
    &&& c.ssid == (address[6] >> 1u8) & 0x0fu8
    &&& c.repeated == (digipeater && address[6] & 0x80u8 != 0)
}

/// The error names the first byte of the address that is no callsign byte.
pub open spec fn bad_call_byte(address: Seq<u8>, err: DecodeError) -> bool {
    exists|i: int|
        0 <= i < 6 && !is_call_byte(#[trigger] address[i]) && (forall|j: int|
            0 <= j < i ==> is_call_byte(#[trigger] address[j])) && invalid_encoding(
            err,
            "invalid AX.25 callsign byte 0x"@ + hex_byte(address[i]),
        )
}

/// All six callsign bytes of the address are valid.
pub open spec fn call_bytes_ok(address: Seq<u8>) -> bool {
    forall|i: int| 0 <= i < 6 ==> is_call_byte(#[trigger] address[i])
}

/// Address field `k` of a payload.
pub open spec fn address_at(payload: Seq<u8>, k: int) -> Seq<u8> {
    payload.subrange(7 * k, 7 * k + 7)
}

/// Address field `k` is marked as the last one.
pub open spec fn is_last(payload: Seq<u8>, k: int) -> bool {
    payload[7 * k + 6] & 1u8 != 0
}

/// The number of address fields, counting from field `k`: up to the first that
/// is marked as the last, or nothing when the payload ends before.
pub open spec fn address_count(payload: Seq<u8>, k: nat) -> Option<nat>
    decreases payload.len() - 7 * k,
{
    if payload.len() < 7 * k + 7 {
        None
    } else if is_last(payload, k as int) {
        Some(k + 1)
    } else {
        address_count(payload, k + 1)
    }
}

/// The fields that are decoded in order: all up to the last, or all that fit.
pub open spec fn present_fields(payload: Seq<u8>) -> nat {
    match address_count(payload, 1) {
        Some(n) => n,
        None => payload.len() / 7,
    }
}

/// What decoding a payload returns.
pub open spec fn ax25_result(payload: Seq<u8>, res: Result<Ax25Frame, DecodeError>) -> bool {
    let too_short = res matches Err(DecodeError::TooShort(n)) && n == payload.len();
    if payload.len() < 14 {
        too_short
    } else if exists|k: int|
        0 <= k < present_fields(payload) && !call_bytes_ok(#[trigger] address_at(payload, k)) {
        exists|k: int|
            0 <= k < present_fields(payload) && !call_bytes_ok(#[trigger] address_at(payload, k))
                && (forall|j: int|
                0 <= j < k ==> call_bytes_ok(#[trigger] address_at(payload, j))) && (
            res matches Err(err) && bad_call_byte(address_at(payload, k), err))
    } else {
        match address_count(payload, 1) {
            None => too_short,
            Some(n) => {
                let at = 7 * n as int;
                if payload.len() <= at {
                    too_short
                } else if payload[at] == UI_CONTROL && payload.len() <= at + 1 {
                    too_short
                } else {
                    res matches Ok(f) && ax25_frame(payload, n, f)
                }
            },
        }
    }
}

/// The frame of a payload with `n` address fields.
pub open spec fn ax25_frame(payload: Seq<u8>, n: nat, f: Ax25Frame) -> bool {
    let at = 7 * n as int;
    let is_ui = payload[at] == UI_CONTROL;
    &&& is_callsign(address_at(payload, 0), false, f.destination)
    &&& is_callsign(address_at(payload, 1), false, f.source)
    &&& f.digipeaters@.len() == n - 2
    &&& forall|k: int|
        2 <= k < n ==> is_callsign(#[trigger] address_at(payload, k), true, f.digipeaters@[k - 2])
    &&& f.control == payload[at]
    &&& f.pid == if is_ui {
        Some(payload[at + 1])
    } else {
        None
    }
    &&& f.info@ == payload.skip(if is_ui {
        at + 2
    } else {
        at + 1
    })
}

impl Callsign {
    /// Decode one seven-byte address field.
    fn decode(bytes: &[u8], is_digipeater: bool) -> (res: Result<Self, DecodeError>)
        requires
            bytes@.len() == 7,
        ensures
            match res {
                Ok(c) => call_bytes_ok(bytes@) && is_callsign(bytes@, is_digipeater, c),
                Err(err) => !call_bytes_ok(bytes@) && bad_call_byte(bytes@, err),
            },
    {
        let mut keep: usize = 0;
        let mut i: usize = 0;
        while i < 6
            invariant
                i <= 6,
                bytes@.len() == 7,
                keep <= i,
                keep as nat == trimmed_len(bytes@, i as nat),
                forall|j: int| 0 <= j < i ==> is_call_byte(#[trigger] bytes@[j]),
            decreases 6 - i,
        {
            let byte: u8 = bytes[i];
            let decoded: u8 = byte >> 1u8;
            if !(decoded == 32 || ascii_alphanumeric(decoded)) {
                let mut text: String = "invalid AX.25 callsign byte 0x".to_string();
                push_hex(&mut text, byte);
                assert(!is_call_byte(bytes@[i as int]));
                return Err(DecodeError::InvalidEncoding(text));
            }
            if decoded != 32 {
                keep = i + 1;
            }
            i = i + 1;
        }
        let mut call: String = String::new();
        let mut k: usize = 0;
        while k < keep
            invariant
                k <= keep,
                keep <= 6,
                bytes@.len() == 7,
                keep as nat == trimmed_len(bytes@, 6),
                call@ == call_text(bytes@).take(k as int),
            decreases keep - k,
        {
            call.push(ascii_upper(bytes[k] >> 1u8) as char);
            k = k + 1;
            assert(call@ =~= call_text(bytes@).take(k as int));
        }
        assert(call@ =~= call_text(bytes@));
        Ok(
            Callsign {
                call,
                ssid: (bytes[6] >> 1u8) & 0x0fu8,
                repeated: is_digipeater && bytes[6] & 0x80u8 != 0,
            },
        )
    }
}

proof fn lemma_address_count(payload: Seq<u8>, k: nat)
    ensures
        address_count(payload, k) matches Some(n) ==> n > k && payload.len() >= 7 * n && is_last(
            payload,
            n - 1,
        ) && (forall|j: int| k <= j < n - 1 ==> !is_last(payload, j)),
        address_count(payload, k) is None ==> forall|j: int|
            k <= j && 7 * j + 7 <= payload.len() ==> !is_last(payload, j),
    decreases payload.len() - 7 * k,
{
    if payload.len() >= 7 * k + 7 && !is_last(payload, k as int) {
        lemma_address_count(payload, k + 1);
    }
}

impl Ax25Decoder {
    /// Construct a new stateless AX.25 decoder.
    pub fn new() -> (d: Self)
        ensures
            d == Ax25Decoder,
    {
        Self
    }

    /// Decode a [`Frame`] as an AX.25 frame.
    ///
    /// The input frame must already have had HDLC flags, bit stuffing, and FCS
    /// removed by the framing stage.
    pub fn decode_frame(&self, frame: &Frame) -> (res: Result<Ax25Frame, DecodeError>)
        ensures
            ax25_result(frame.raw@, res),
    {
        self.decode(frame.raw.as_slice())
    }

    /// Decode a raw AX.25 payload.
    ///
    /// The payload starts with destination and source address fields, optional
    /// digipeaters, then control/PID/info bytes.
    pub fn decode(&self, payload: &[u8]) -> (res: Result<Ax25Frame, DecodeError>)
        ensures
            ax25_result(payload@, res),
    {
        let len: usize = payload.len();
        if len < 14 {
            return Err(DecodeError::TooShort(len));
        }
        proof {
            lemma_address_count(payload@, 1);
        }
        let first: Vec<u8> = copy_range(payload, 0, 7);
        assert(first@ == address_at(payload@, 0));
        let destination: Callsign = match Callsign::decode(first.as_slice(), false) {
            Ok(c) => c,
            Err(err) => {
                assert(!call_bytes_ok(address_at(payload@, 0)));
                return Err(err);
            },
        };
        let second: Vec<u8> = copy_range(payload, 7, 14);
        assert(second@ == address_at(payload@, 1));
        let source: Callsign = match Callsign::decode(second.as_slice(), false) {
            Ok(c) => c,
            Err(err) => {
                assert(!call_bytes_ok(address_at(payload@, 1)));
                assert forall|j: int| 0 <= j < 1 implies call_bytes_ok(
                    #[trigger] address_at(payload@, j),
                ) by {}
                return Err(err);
            },
        };
        let mut offset: usize = 14;
        let ghost mut fields: int = 2;
        let mut digipeaters: Vec<Callsign> = Vec::new();
        let mut last: bool = payload[13] & 1u8 != 0;
        proof {
            assert(last == is_last(payload@, 1));
            assert forall|j: int| 0 <= j < 2 implies call_bytes_ok(
                #[trigger] address_at(payload@, j),
            ) by {
                if j == 1 {
                    assert(address_at(payload@, j) == second@);
                } else {
                    assert(address_at(payload@, j) == first@);
                }
            }
        }
        while !last
            invariant
                len == payload@.len(),
                14 <= offset <= len,
                offset == 7 * fields,
                fields >= 2,
                last == is_last(payload@, fields - 1),
                last ==> address_count(payload@, 1) == Some(fields as nat),
                !last ==> address_count(payload@, 1) == address_count(payload@, fields as nat),
                is_callsign(address_at(payload@, 0), false, destination),
                is_callsign(address_at(payload@, 1), false, source),
                digipeaters@.len() == fields - 2,
                forall|k: int|
                    2 <= k < fields ==> is_callsign(
                        #[trigger] address_at(payload@, k),
                        true,
                        digipeaters@[k - 2],
                    ),
                forall|j: int| 0 <= j < fields ==> call_bytes_ok(#[trigger] address_at(payload@, j)),
            decreases len - offset,
        {
            if len - offset < 7 {
                proof {
                    assert(address_count(payload@, fields as nat) is None);
                    assert(present_fields(payload@) == fields);
                }
                return Err(DecodeError::TooShort(len));
            }
            let address: Vec<u8> = copy_range(payload, offset, offset + 7);
            assert(address@ == address_at(payload@, fields));
            proof {
                lemma_address_count(payload@, fields as nat);
                assert(present_fields(payload@) > fields);
            }
            let call: Callsign = match Callsign::decode(address.as_slice(), true) {
                Ok(c) => c,
                Err(err) => {
                    assert(!call_bytes_ok(address_at(payload@, fields)));
                    return Err(err);
                },
            };
            digipeaters.push(call);
            last = payload[offset + 6] & 1u8 != 0;
            offset = offset + 7;
            proof {
                fields = fields + 1;
            }
        }
        assert(present_fields(payload@) == fields);
        if len <= offset {
            return Err(DecodeError::TooShort(len));
        }
        let control: u8 = payload[offset];
        if control == UI_CONTROL {
            if len - offset <= 1 {
                return Err(DecodeError::TooShort(len));
            }
            let pid: u8 = payload[offset + 1];
            let info: Vec<u8> = copy_range(payload, offset + 2, len);
            assert(info@ =~= payload@.skip(offset + 2));
            return Ok(
                Ax25Frame { destination, source, digipeaters, control, pid: Some(pid), info },
            );
        }
        let info: Vec<u8> = copy_range(payload, offset + 1, len);
        assert(info@ =~= payload@.skip(offset + 1));
        Ok(Ax25Frame { destination, source, digipeaters, control, pid: None, info })
    }
}

impl Default for Ax25Decoder {
    fn default() -> (d: Self)
        ensures
            d == Ax25Decoder,
    {
        Ax25Decoder
    }
}

/// A station as it stands in an address field.
pub struct Station {
    /// Up to six upper-case letters and digits.
    pub call: Seq<u8>,
    pub ssid: u8,
    pub repeated: bool,
}

/// The station can be written.
pub open spec fn is_station(s: Station) -> bool {
    &&& s.call.len() <= 6
    &&& s.ssid < 16
    &&& forall|i: int|
        0 <= i < s.call.len() ==> is_alphanumeric(#[trigger] s.call[i]) && upper(s.call[i])
            == s.call[i]
}

/// The last byte of an address field.
pub open spec fn ssid_byte(s: Station, last: bool) -> u8 {
    0x60u8 | (s.ssid << 1u8) | (if last {
        1u8
    } else {
        0u8
    }) | (if s.repeated {
        0x80u8
    } else {
        0u8
    })
}

/// The address field of a station: its callsign, padded with spaces, and its SSID.
pub open spec fn address_of(s: Station, last: bool) -> Seq<u8> {
    Seq::new(
        7,
        |i: int|
            if i == 6 {
                ssid_byte(s, last)
            } else if i < s.call.len() {
                s.call[i] << 1u8
            } else {
                0x40u8
            },
    )
}

/// The address fields of some stations; the last one is marked.
pub open spec fn addresses_of(stations: Seq<Station>) -> Seq<u8> {
    Seq::new(
        7 * stations.len(),
        |i: int| address_of(stations[i / 7], i / 7 == stations.len() - 1)[i % 7],
    )
}

proof fn lemma_shifted(b: u8)
    by (bit_vector)
    ensures
        b < 128 ==> (b << 1u8) >> 1u8 == b,
        b < 128 ==> b << 1u8 == 2 * b,
        0x40u8 >> 1u8 == 32u8,
{
}

proof fn lemma_ssid_bits(ssid: u8, l: u8, r: u8)
    by (bit_vector)
    requires
        ssid < 16,
        l <= 1,
        r == 0 || r == 0x80,
    ensures
        ((0x60u8 | (ssid << 1u8) | l | r) >> 1u8) & 0x0fu8 == ssid,
        (0x60u8 | (ssid << 1u8) | l | r) & 1u8 == l,
        (0x60u8 | (ssid << 1u8) | l | r) & 0x80u8 == r,
        (0x60u8 | (ssid << 1u8) | l | r) == 96 + 2 * ssid + l + r,
{
}

proof fn lemma_trimmed(address: Seq<u8>, m: nat, n: nat)
    requires
        m <= n,
        m > 0 ==> address[m - 1] >> 1u8 != 32,
        forall|i: int| m <= i < n ==> #[trigger] address[i] >> 1u8 == 32,
    ensures
        trimmed_len(address, n) == m,
    decreases n,
{
    if n > m {
        lemma_trimmed(address, m, (n - 1) as nat);
    }
}

/// An address field gives back its station.
proof fn lemma_address(s: Station, last: bool)
    requires
        is_station(s),
    ensures
        call_bytes_ok(address_of(s, last)),
        call_text(address_of(s, last)) == s.call.map_values(|b: u8| b as char),
        (address_of(s, last)[6] >> 1u8) & 0x0fu8 == s.ssid,
        (address_of(s, last)[6] & 1u8 != 0) == last,
        (address_of(s, last)[6] & 0x80u8 != 0) == s.repeated,
{
    let a = address_of(s, last);
    lemma_ssid_bits(
        s.ssid,
        if last {
            1u8
        } else {
            0u8
        },
        if s.repeated {
            0x80u8
        } else {
            0u8
        },
    );
    assert forall|i: int| 0 <= i < 6 implies is_call_byte(#[trigger] a[i]) && a[i] >> 1u8 == (if i
        < s.call.len() {
        s.call[i]
    } else {
        32u8
    }) by {
        if i < s.call.len() {
            assert(is_alphanumeric(s.call[i]));
            lemma_shifted(s.call[i]);
        } else {
            lemma_shifted(0);
        }
    }
    assert(is_station(s));
    lemma_trimmed(a, s.call.len(), 6);
    assert(call_text(a) =~= s.call.map_values(|b: u8| b as char));
}

proof fn lemma_addresses(stations: Seq<Station>, rest: Seq<u8>, k: int)
    requires
        0 <= k < stations.len(),
    ensures
        address_at(addresses_of(stations) + rest, k) == address_of(
            stations[k],
            k == stations.len() - 1,
        ),
        (addresses_of(stations) + rest)[7 * k + 6] == address_of(
            stations[k],
            k == stations.len() - 1,
        )[6],
{
    let payload = addresses_of(stations) + rest;
    let a = address_of(stations[k], k == stations.len() - 1);
    assert forall|i: int| 0 <= i < 7 implies payload[7 * k + i] == a[i] by {
        assert((7 * k + i) / 7 == k && (7 * k + i) % 7 == i);
    }
    assert(address_at(payload, k) =~= a);
}

proof fn lemma_station_count(stations: Seq<Station>, rest: Seq<u8>, k: nat)
    requires
        k < stations.len(),
        forall|i: int| 0 <= i < stations.len() ==> is_station(#[trigger] stations[i]),
    ensures
        address_count(addresses_of(stations) + rest, k) == Some(stations.len()),
    decreases stations.len() - k,
{
    lemma_addresses(stations, rest, k as int);
    lemma_address(stations[k as int], k == stations.len() - 1);
    if k + 1 < stations.len() {
        lemma_station_count(stations, rest, k + 1);
    }
}

/// The callsign of a decoded frame is that of a station.
pub open spec fn names(c: Callsign, s: Station) -> bool {
    c.call@ == s.call.map_values(|b: u8| b as char) && c.ssid == s.ssid
}

/// An unnumbered information frame gives back what was sent: the destination, the
/// source, the digipeaters with their marks, the protocol and the information.
pub proof fn law_ui_frame_round_trip(
    stations: Seq<Station>,
    pid: u8,
    info: Seq<u8>,
    res: Result<Ax25Frame, DecodeError>,
)
    requires
        stations.len() >= 2,
        forall|i: int| 0 <= i < stations.len() ==> is_station(#[trigger] stations[i]),
        ax25_result(addresses_of(stations) + seq![UI_CONTROL, pid] + info, res),
    ensures
        res is Ok,
        names(res->Ok_0.destination, stations[0]),
        names(res->Ok_0.source, stations[1]),
        res->Ok_0.digipeaters@.len() == stations.len() - 2,
        forall|k: int|
            2 <= k < stations.len() ==> names(
                #[trigger] res->Ok_0.digipeaters@[k - 2],
                stations[k],
            ) && res->Ok_0.digipeaters@[k - 2].repeated == stations[k].repeated,
        res->Ok_0.control == UI_CONTROL,
        res->Ok_0.pid == Some(pid),
        res->Ok_0.info@ == info,
{
    let n = stations.len();
    let rest = seq![UI_CONTROL, pid] + info;
    let payload = addresses_of(stations) + rest;
    assert(addresses_of(stations) + seq![UI_CONTROL, pid] + info =~= payload);
    lemma_station_count(stations, rest, 1);
    assert forall|k: int| 0 <= k < n implies call_bytes_ok(#[trigger] address_at(payload, k))
        && address_at(payload, k) == address_of(stations[k], k == n - 1) by {
        lemma_addresses(stations, rest, k);
        lemma_address(stations[k], k == n - 1);
    }
    let f = res->Ok_0;
    assert(ax25_frame(payload, n, f));
    lemma_address(stations[0], false);
    lemma_address(stations[1], 1 == n - 1);
    assert(address_at(payload, 0) == address_of(stations[0], false));
    assert(address_at(payload, 1) == address_of(stations[1], 1 == n - 1));
    assert forall|k: int| 2 <= k < n implies names(#[trigger] f.digipeaters@[k - 2], stations[k])
        && f.digipeaters@[k - 2].repeated == stations[k].repeated by {
        assert(is_callsign(address_at(payload, k), true, f.digipeaters@[k - 2]));
        lemma_address(stations[k], k == n - 1);
    }
    assert(payload.skip(7 * n as int + 2) =~= info);
}

/// The byte of an address field of a station: twice the character, or twice a space
/// behind the callsign; and in the seventh place twice the SSID and 96, one more in the
/// last field, and 128 more if the frame was repeated.
pub open spec fn field_byte(s: Station, last: bool, i: int) -> int {
    if i < 6 {
        if i < s.call.len() {
            2 * s.call[i]
        } else {
            64
        }
    } else {
        96 + 2 * s.ssid + (if last {
            1int
        } else {
            0
        }) + (if s.repeated {
            128int
        } else {
            0
        })
    }
}

/// Up to six capital letters and figures, and an SSID below sixteen.
pub open spec fn is_sendable(s: Station) -> bool {
    &&& s.call.len() <= 6
    &&& s.ssid < 16
    &&& forall|i: int|
        0 <= i < s.call.len() ==> (0x30 <= #[trigger] s.call[i] <= 0x39 || 0x41 <= s.call[i]
            <= 0x5A)
}

/// A frame is read as it was sent, whatever its kind: the address fields byte by byte, the
/// control byte, in a UI frame the protocol byte, and the information behind them.
pub proof fn law_frame_is_read(
    stations: Seq<Station>,
    payload: Seq<u8>,
    res: Result<Ax25Frame, DecodeError>,
)
    requires
        stations.len() >= 2,
        forall|k: int| 0 <= k < stations.len() ==> is_sendable(#[trigger] stations[k]),
        payload.len() > 7 * stations.len(),
        payload[7 * stations.len() as int] == 0x03 ==> payload.len() > 7 * stations.len() + 1,
        forall|m: int|
            0 <= m < 7 * stations.len() ==> #[trigger] payload[m] == field_byte(
                stations[m / 7],
                m / 7 == stations.len() - 1,
                m % 7,
            ),
        ax25_result(payload, res),
    ensures
        res is Ok,
        names(res->Ok_0.destination, stations[0]),
        names(res->Ok_0.source, stations[1]),
        res->Ok_0.digipeaters@.len() == stations.len() - 2,
        forall|k: int|
            2 <= k < stations.len() ==> names(
                #[trigger] res->Ok_0.digipeaters@[k - 2],
                stations[k],
            ) && res->Ok_0.digipeaters@[k - 2].repeated == stations[k].repeated,
        res->Ok_0.control == payload[7 * stations.len() as int],
        payload[7 * stations.len() as int] == 0x03 ==> {
            &&& res->Ok_0.pid == Some(payload[7 * stations.len() as int + 1])
            &&& res->Ok_0.info@ == payload.skip(7 * stations.len() as int + 2)
        },
        payload[7 * stations.len() as int] != 0x03 ==> {
            &&& res->Ok_0.pid is None
            &&& res->Ok_0.info@ == payload.skip(7 * stations.len() as int + 1)
        },
{
    let n = stations.len();
    let rest = payload.skip(7 * n as int);
    assert forall|k: int| 0 <= k < n implies is_station(#[trigger] stations[k]) by {
        assert(is_sendable(stations[k]));
    }
    let front = addresses_of(stations);
    assert forall|m: int| 0 <= m < 7 * n implies front[m] == #[trigger] payload[m] by {
        let s = stations[m / 7];
        let last = m / 7 == n - 1;
        assert(is_sendable(s));
        if m % 7 < 6 {
            if m % 7 < s.call.len() {
                assert(0x30 <= s.call[m % 7] <= 0x5A);
                lemma_shifted(s.call[m % 7]);
            }
        } else {
            lemma_ssid_bits(
                s.ssid,
                if last {
                    1u8
                } else {
                    0u8
                },
                if s.repeated {
                    0x80u8
                } else {
                    0u8
                },
            );
        }
    }
    assert(payload =~= front + rest);
    lemma_station_count(stations, rest, 1);
    assert forall|k: int| 0 <= k < n implies call_bytes_ok(#[trigger] address_at(payload, k))
        && address_at(payload, k) == address_of(stations[k], k == n - 1) by {
        lemma_addresses(stations, rest, k);
        lemma_address(stations[k], k == n - 1);
    }
    let f = res->Ok_0;
    assert(ax25_frame(payload, n, f));
    lemma_address(stations[0], false);
    lemma_address(stations[1], 1 == n - 1);
    assert(address_at(payload, 0) == address_of(stations[0], false));
    assert(address_at(payload, 1) == address_of(stations[1], 1 == n - 1));
    assert forall|k: int| 2 <= k < n implies names(#[trigger] f.digipeaters@[k - 2], stations[k])
        && f.digipeaters@[k - 2].repeated == stations[k].repeated by {
        assert(is_callsign(address_at(payload, k), true, f.digipeaters@[k - 2]));
        lemma_address(stations[k], k == n - 1);
    }
}

} // verus!
