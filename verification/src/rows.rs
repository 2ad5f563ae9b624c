//! Rows of the frame table: what is listed of a decoded frame, which of its bytes
//! go to the telemetry schema and to the image reassembler, and how rows are
//! filtered, previewed, dumped and exported.
use std::collections::VecDeque;
use vstd::prelude::*;
use vstd::string::StringExecFns;
use crate::ax25::Ax25Frame;
use crate::geoscan::GeoscanFrame;
use crate::model::{Frame, TelemetryField, TelemetryValue};
use crate::satellite::Real32;
use crate::slices::copy_range;
use crate::ssdv::SsdvPacket;
use crate::text::{
    ascii_lower, decimal, decimal_string, hex_byte, hex_byte_upper, hex_char, lower,
    push_hex_upper,
};
use crate::words::{
    chars_of, contains_chars, hex_address, hexadecimal, lower_chars, lowered, occurs, padded,
    signed_decimal, signed_string, stands_at, text_from, trim_chars, trimmed, zero_padded_decimal,
};

verus! {

/// A frame after the codec stage.
#[derive(Debug)]
pub enum DecodedFrame {
    /// An AX.25 frame.
    Ax25(Ax25Frame),
    /// The payload of an AO-40 block.
    Ao40 {
        /// Recovered payload.
        payload: Vec<u8>,
    },
    /// The payload of an AX100 frame.
    Ax100 {
        /// Recovered payload.
        payload: Vec<u8>,
        /// Outcome of the checksum, in the modes that have one.
        crc_ok: Option<bool>,
    },
    /// A Geoscan frame.
    Geoscan(GeoscanFrame),
    /// An SSDV packet.
    Ssdv(SsdvPacket),
    /// A frame that no codec reads.
    Raw {
        /// Length of the frame in bytes.
        raw_len: usize,
    },
}

/// How a row is marked in the table.
#[derive(Debug, Clone, Copy, PartialEq, Eq, Structural)]
pub enum FrameKind {
    /// Telemetry.
    Tlm,
    /// Whole-orbit data.
    Wod,
    /// Damaged or empty.
    Fault,
    /// Not interpreted.
    Raw,
}

impl FrameKind {
    /// The word for a kind.
    pub open spec fn word(self) -> Seq<char> {
        match self {
            FrameKind::Tlm => "Tlm"@,
            FrameKind::Wod => "Wod"@,
            FrameKind::Fault => "Err"@,
            FrameKind::Raw => "Raw"@,
        }
    }

    /// The word for the kind, as it stands in exports.
    pub fn label(self) -> (text: &'static str)
        ensures
            text@ == self.word(),
    {
        match self {
            FrameKind::Tlm => "Tlm",
            FrameKind::Wod => "Wod",
            FrameKind::Fault => "Err",
            FrameKind::Raw => "Raw",
        }
    }
}

/// Time since reception started.
#[derive(Debug, Clone, Copy, PartialEq, Eq, Structural)]
pub struct Elapsed {
    /// Whole seconds.
    pub secs: u64,
    /// Nanoseconds beyond the whole seconds.
    pub nanos: u32,
}

/// One row of the frame table.
#[derive(Debug)]
pub struct FrameRow {
    /// Number of the frame, counted from one.
    pub index: usize,
    /// When it arrived.
    pub time: Elapsed,
    /// Sender.
    pub source: String,
    /// Addressee.
    pub destination: String,
    /// Mark of the row.
    pub kind: FrameKind,
    /// Signal strength, where the framer knows it.
    pub rssi_dbm: Option<Real32>,
    /// Bytes of the frame.
    pub raw: Vec<u8>,
    /// Telemetry read from the frame.
    pub telemetry: Vec<TelemetryField>,
}

/// A row whose telemetry has not been read yet.
#[derive(Debug)]
pub struct PendingRow {
    /// The row, without telemetry.
    pub row: FrameRow,
    /// The bytes that the telemetry schema reads, where it reads any.
    pub schema_input: Option<Vec<u8>>,
}

/// The contents of a row that has no telemetry yet.
#[verifier::ext_equal]
pub struct RowModel {
    pub source: Seq<char>,
    pub destination: Seq<char>,
    pub kind: FrameKind,
    pub raw: Seq<u8>,
    /// The bytes that the telemetry schema reads.
    pub schema_input: Option<Seq<u8>>,
}

/// The contents of optional bytes.
pub open spec fn bytes_view(bytes: Option<Vec<u8>>) -> Option<Seq<u8>> {
    match bytes {
        Some(b) => Some(b@),
        None => None,
    }
}

/// A pending row has these contents, this number, this time and this strength.
pub open spec fn is_row(
    p: PendingRow,
    index: usize,
    time: Elapsed,
    rssi_dbm: Option<Real32>,
    m: RowModel,
) -> bool {
    &&& p.row.index == index
    &&& p.row.time == time
    &&& p.row.rssi_dbm == rssi_dbm
    &&& p.row.telemetry@.len() == 0
    &&& p.row.source@ == m.source
    &&& p.row.destination@ == m.destination
    &&& p.row.kind == m.kind
    &&& p.row.raw@ == m.raw
    &&& bytes_view(p.schema_input) == m.schema_input
}

/// Bytes with ASCII letters in lower case.
pub open spec fn lower_bytes(bytes: Seq<u8>) -> Seq<u8> {
    Seq::new(bytes.len(), |i: int| lower(bytes[i]))
}

/// The bytes hold the word WOD in any case.
pub open spec fn says_wod(info: Seq<u8>) -> bool {
    occurs(lower_bytes(info), seq![119u8, 111u8, 100u8])
}

/// The mark of an AX.25 frame: empty ones are faults, those that say WOD are
/// whole-orbit data, the others telemetry.
pub open spec fn ax25_kind(info: Seq<u8>) -> FrameKind {
    if info.len() == 0 {
        FrameKind::Fault
    } else if says_wod(info) {
        FrameKind::Wod
    } else {
        FrameKind::Tlm
    }
}

/// The mark of a frame with a checksum.
pub open spec fn checked_kind(crc_ok: bool) -> FrameKind {
    if crc_ok {
        FrameKind::Tlm
    } else {
        FrameKind::Fault
    }
}

/// The sender of an SSDV packet.
pub open spec fn ssdv_source(callsign: Seq<char>) -> Seq<char> {
    if callsign.len() == 0 {
        "SSDV"@
    } else {
        callsign
    }
}

/// The addressee of an SSDV packet: its image and packet number.
pub open spec fn ssdv_destination(image_id: u8, packet_id: u16) -> Seq<char> {
    "IMG#"@ + padded(decimal(image_id as nat), '0', 3) + "/PKT#"@ + padded(
        decimal(packet_id as nat),
        '0',
        5,
    )
}

/// The row of a frame that arrives already decoded.
pub open spec fn decoded_row(decoded: DecodedFrame) -> RowModel {
    match decoded {
        DecodedFrame::Ax25(f) => RowModel {
            source: f.source.call@,
            destination: f.destination.call@,
            kind: ax25_kind(f.info@),
            raw: f.info@,
            schema_input: Some(f.info@),
        },
        DecodedFrame::Ao40 { payload } => RowModel {
            source: "AO40"@,
            destination: "FEC"@,
            kind: FrameKind::Tlm,
            raw: payload@,
            schema_input: Some(payload@),
        },
        DecodedFrame::Ax100 { payload, crc_ok } => RowModel {
            source: "AX100"@,
            destination: "FEC"@,
            kind: checked_kind(crc_ok != Some(false)),
            raw: payload@,
            schema_input: if crc_ok != Some(false) {
                Some(payload@)
            } else {
                None
            },
        },
        DecodedFrame::Geoscan(f) => RowModel {
            source: "GEOSCAN"@,
            destination: "BEACON"@,
            kind: checked_kind(f.crc_ok),
            raw: f.payload@,
            schema_input: Some(f.payload@),
        },
        DecodedFrame::Ssdv(p) => RowModel {
            source: ssdv_source(p.callsign@),
            destination: ssdv_destination(p.image_id, p.packet_id),
            kind: checked_kind(p.crc_ok),
            raw: p.payload@,
            schema_input: None,
        },
        DecodedFrame::Raw { raw_len } => RowModel {
            source: "RAW"@,
            destination: "ALL"@,
            kind: FrameKind::Raw,
            raw: Seq::new(raw_len as nat, |i: int| 0u8),
            schema_input: None,
        },
    }
}

/// The row of a frame that the framer found, with what the codec made of it. AX100
/// frames stay telemetry even with a bad checksum, so that their contents remain
/// readable; only the telemetry schema is kept from them.
pub open spec fn framed_row(frame_raw: Seq<u8>, decoded: DecodedFrame) -> RowModel {
    match decoded {
        DecodedFrame::Ax25(f) => decoded_row(decoded),
        DecodedFrame::Geoscan(f) => decoded_row(decoded),
        DecodedFrame::Ao40 { payload } => RowModel {
            source: "RAW"@,
            destination: "ALL"@,
            kind: FrameKind::Tlm,
            raw: payload@,
            schema_input: Some(payload@),
        },
        DecodedFrame::Ax100 { payload, crc_ok } => RowModel {
            source: "RAW"@,
            destination: "ALL"@,
            kind: FrameKind::Tlm,
            raw: payload@,
            schema_input: if crc_ok != Some(false) {
                Some(payload@)
            } else {
                None
            },
        },
        DecodedFrame::Ssdv(p) => RowModel { raw: p.raw@, ..decoded_row(decoded) },
        DecodedFrame::Raw { raw_len } => RowModel {
            source: "RAW"@,
            destination: "ALL"@,
            kind: FrameKind::Raw,
            raw: frame_raw,
            schema_input: Some(frame_raw),
        },
    }
}

fn copy_of(bytes: &Vec<u8>) -> (out: Vec<u8>)
    ensures
        out@ == bytes@,
{
    let out = copy_range(bytes.as_slice(), 0, bytes.len());
    assert(bytes@.subrange(0, bytes@.len() as int) =~= bytes@);
    out
}

fn find_wod(info: &Vec<u8>) -> (r: bool)
    ensures
        r == says_wod(info@),
{
    let ghost low = lower_bytes(info@);
    let ghost wod = seq![119u8, 111u8, 100u8];
    let len: usize = info.len();
    let mut i: usize = 0;
    while i < len
        invariant
            i <= len,
            len == info@.len(),
            low == lower_bytes(info@),
            wod == seq![119u8, 111u8, 100u8],
            forall|k: int| 0 <= k < i ==> !#[trigger] stands_at(low, wod, k),
        decreases len - i,
    {
        if len - i >= 3 && ascii_lower(info[i]) == 119 && ascii_lower(info[i + 1]) == 111
            && ascii_lower(info[i + 2]) == 100 {
            assert(low.subrange(i as int, i + 3) =~= wod);
            assert(stands_at(low, wod, i as int));
            return true;
        }
        proof {
            if stands_at(low, wod, i as int) {
                let piece = low.subrange(i as int, i + 3);
                assert(piece[0] == low[i as int] && piece[1] == low[i + 1] && piece[2] == low[i
                    + 2]);
                assert(false);
            }
        }
        i = i + 1;
    }
    assert(!says_wod(info@)) by {
        if says_wod(info@) {
            let at = choose|at: int| stands_at(low, wod, at);
            assert(stands_at(low, wod, at));
        }
    }
    false
}

fn kind_of_ax25(info: &Vec<u8>) -> (kind: FrameKind)
    ensures
        kind == ax25_kind(info@),
{
    if info.len() == 0 {
        FrameKind::Fault
    } else if find_wod(info) {
        FrameKind::Wod
    } else {
        FrameKind::Tlm
    }
}

fn kind_of_checked(crc_ok: bool) -> (kind: FrameKind)
    ensures
        kind == checked_kind(crc_ok),
{
    if crc_ok {
        FrameKind::Tlm
    } else {
        FrameKind::Fault
    }
}

fn zeros(n: usize) -> (out: Vec<u8>)
    ensures
        out@ == Seq::new(n as nat, |i: int| 0u8),
{
    let mut out: Vec<u8> = Vec::new();
    let mut i: usize = 0;
    while i < n
        invariant
            i <= n,
            out@ == Seq::new(i as nat, |j: int| 0u8),
        decreases n - i,
    {
        out.push(0);
        i = i + 1;
        assert(out@ =~= Seq::new(i as nat, |j: int| 0u8));
    }
    out
}

fn ssdv_target(packet: &SsdvPacket) -> (text: String)
    ensures
        text@ == ssdv_destination(packet.image_id, packet.packet_id),
{
    "IMG#".to_string().concat(zero_padded_decimal(packet.image_id as u64, 3).as_str()).concat(
        "/PKT#",
    ).concat(zero_padded_decimal(packet.packet_id as u64, 5).as_str())
}

fn ssdv_sender(packet: &SsdvPacket) -> (text: String)
    ensures
        text@ == ssdv_source(packet.callsign@),
{
    if chars_of(packet.callsign.as_str()).len() == 0 {
        "SSDV".to_string()
    } else {
        packet.callsign.clone()
    }
}

fn pending(
    index: usize,
    time: Elapsed,
    source: String,
    destination: String,
    kind: FrameKind,
    raw: Vec<u8>,
    schema_input: Option<Vec<u8>>,
) -> (p: PendingRow)
    ensures
        is_row(
            p,
            index,
            time,
            None,
            (RowModel {
                source: source@,
                destination: destination@,
                kind,
                raw: raw@,
                schema_input: bytes_view(schema_input),
            }),
        ),
{
    PendingRow {
        row: FrameRow {
            index,
            time,
            source,
            destination,
            kind,
            rssi_dbm: None,
            raw,
            telemetry: Vec::new(),
        },
        schema_input,
    }
}

/// List a frame that arrives already decoded.
pub fn decoded_frame_row(index: usize, time: Elapsed, decoded: &DecodedFrame) -> (p: PendingRow)
    ensures
        is_row(p, index, time, None, decoded_row(*decoded)),
{
    match decoded {
        DecodedFrame::Ax25(f) => pending(
            index,
            time,
            f.source.call.clone(),
            f.destination.call.clone(),
            kind_of_ax25(&f.info),
            copy_of(&f.info),
            Some(copy_of(&f.info)),
        ),
        DecodedFrame::Ao40 { payload } => pending(
            index,
            time,
            "AO40".to_string(),
            "FEC".to_string(),
            FrameKind::Tlm,
            copy_of(payload),
            Some(copy_of(payload)),
        ),
        DecodedFrame::Ax100 { payload, crc_ok } => {
            let failed: bool = match crc_ok {
                Some(false) => true,
                _ => false,
            };
            let schema_input = if failed { None } else { Some(copy_of(payload)) };
            pending(
                index,
                time,
                "AX100".to_string(),
                "FEC".to_string(),
                kind_of_checked(!failed),
                copy_of(payload),
                schema_input,
            )
        },
        DecodedFrame::Geoscan(f) => pending(
            index,
            time,
            "GEOSCAN".to_string(),
            "BEACON".to_string(),
            kind_of_checked(f.crc_ok),
            copy_of(&f.payload),
            Some(copy_of(&f.payload)),
        ),
        DecodedFrame::Ssdv(packet) => pending(
            index,
            time,
            ssdv_sender(packet),
            ssdv_target(packet),
            kind_of_checked(packet.crc_ok),
            copy_of(&packet.payload),
            None,
        ),
        DecodedFrame::Raw { raw_len } => pending(
            index,
            time,
            "RAW".to_string(),
            "ALL".to_string(),
            FrameKind::Raw,
            zeros(*raw_len),
            None,
        ),
    }
}

/// List a frame that the framer found, with what the codec made of it. A codec error
/// is passed on.
pub fn frame_row(
    index: usize,
    time: Elapsed,
    frame: &Frame,
    decoded: &Result<DecodedFrame, String>,
) -> (res: Result<PendingRow, String>)
    ensures
        match (*decoded, res) {
            (Ok(d), Ok(p)) => is_row(p, index, time, frame.rssi_dbm, framed_row(frame.raw@, d)),
            (Err(e), Err(r)) => r@ == e@,
            _ => false,
        },
{
    match decoded {
        Err(e) => Err(e.clone()),
        Ok(d) => {
            let mut p = match d {
                DecodedFrame::Ax25(_) => decoded_frame_row(index, time, d),
                DecodedFrame::Geoscan(_) => decoded_frame_row(index, time, d),
                DecodedFrame::Ao40 { payload } => pending(
                    index,
                    time,
                    "RAW".to_string(),
                    "ALL".to_string(),
                    FrameKind::Tlm,
                    copy_of(payload),
                    Some(copy_of(payload)),
                ),
                DecodedFrame::Ax100 { payload, crc_ok } => {
                    let failed: bool = match crc_ok {
                        Some(false) => true,
                        _ => false,
                    };
                    let schema_input = if failed { None } else { Some(copy_of(payload)) };
                    pending(
                        index,
                        time,
                        "RAW".to_string(),
                        "ALL".to_string(),
                        FrameKind::Tlm,
                        copy_of(payload),
                        schema_input,
                    )
                },
                DecodedFrame::Ssdv(packet) => pending(
                    index,
                    time,
                    ssdv_sender(packet),
                    ssdv_target(packet),
                    kind_of_checked(packet.crc_ok),
                    copy_of(&packet.raw),
                    None,
                ),
                DecodedFrame::Raw { raw_len: _ } => pending(
                    index,
                    time,
                    "RAW".to_string(),
                    "ALL".to_string(),
                    FrameKind::Raw,
                    copy_of(&frame.raw),
                    Some(copy_of(&frame.raw)),
                ),
            };
            p.row.rssi_dbm = frame.rssi_dbm;
            Ok(p)
        },
    }
}

/// The bytes of a frame that carry a piece of an image: the payload of a Geoscan
/// frame, all of an SSDV packet.
pub open spec fn image_bytes(decoded: DecodedFrame) -> Option<Seq<u8>> {
    match decoded {
        DecodedFrame::Geoscan(f) => Some(f.payload@),
        DecodedFrame::Ssdv(p) => Some(p.raw@),
        _ => None,
    }
}

/// The outcome of the checksum of a frame that carries a piece of an image.
pub open spec fn image_crc(decoded: DecodedFrame) -> Option<bool> {
    match decoded {
        DecodedFrame::Geoscan(f) => Some(f.crc_ok),
        DecodedFrame::Ssdv(p) => Some(p.crc_ok),
        _ => None,
    }
}

/// The image bytes of a frame that arrives already decoded. The checksum is not
/// asked: most of a damaged chunk is still usable, and the reassembler looks at the
/// header itself.
pub fn image_tap(decoded: &DecodedFrame) -> (bytes: Option<Vec<u8>>)
    ensures
        bytes_view(bytes) == image_bytes(*decoded),
{
    match decoded {
        DecodedFrame::Geoscan(f) => Some(copy_of(&f.payload)),
        DecodedFrame::Ssdv(packet) => Some(copy_of(&packet.raw)),
        _ => None,
    }
}

/// The checksum to count and the image bytes of a frame that the framer found. Bytes
/// are handed on only where the checksum holds: a false lock gives noise, and noise
/// on the canvas is worse than a missing chunk.
pub fn checked_image_tap(decoded: &Result<DecodedFrame, String>) -> (res: (
    Option<bool>,
    Option<Vec<u8>>,
))
    ensures
        match *decoded {
            Ok(d) => res.0 == image_crc(d) && bytes_view(res.1) == (if image_crc(d) == Some(true) {
                image_bytes(d)
            } else {
                None
            }),
            Err(_) => res.0 is None && res.1 is None,
        },
{
    match decoded {
        Ok(DecodedFrame::Geoscan(f)) => {
            let bytes = if f.crc_ok { Some(copy_of(&f.payload)) } else { None };
            (Some(f.crc_ok), bytes)
        },
        Ok(DecodedFrame::Ssdv(packet)) => {
            let bytes = if packet.crc_ok { Some(copy_of(&packet.raw)) } else { None };
            (Some(packet.crc_ok), bytes)
        },
        _ => (None, None),
    }
}

/// Bytes as lower-case hexadecimal digits, without separators.
pub open spec fn hex_run(bytes: Seq<u8>) -> Seq<char>
    decreases bytes.len(),
{
    if bytes.len() == 0 {
        Seq::empty()
    } else {
        hex_run(bytes.drop_last()) + hex_byte(bytes.last())
    }
}

/// Bytes as upper-case hexadecimal pairs, separated by spaces.
pub open spec fn hex_pairs(bytes: Seq<u8>) -> Seq<char>
    decreases bytes.len(),
{
    if bytes.len() == 0 {
        Seq::empty()
    } else if bytes.len() == 1 {
        hex_byte_upper(bytes[0])
    } else {
        hex_pairs(bytes.drop_last()).push(' ') + hex_byte_upper(bytes.last())
    }
}

fn hex_digits(bytes: &Vec<u8>) -> (out: Vec<char>)
    ensures
        out@ == hex_run(bytes@),
{
    let mut out: Vec<char> = Vec::new();
    let mut i: usize = 0;
    while i < bytes.len()
        invariant
            i <= bytes@.len(),
            out@ == hex_run(bytes@.take(i as int)),
        decreases bytes@.len() - i,
    {
        let b: u8 = bytes[i];
        out.push(hex_digit(b / 16));
        out.push(hex_digit(b % 16));
        i = i + 1;
        proof {
            let part = bytes@.take(i as int);
            assert(part.drop_last() =~= bytes@.take(i - 1));
            assert(out@ =~= hex_run(part));
        }
    }
    assert(bytes@.take(bytes@.len() as int) =~= bytes@);
    out
}

fn hex_digit(d: u8) -> (c: char)
    requires
        d < 16,
    ensures
        c == hex_char(d as nat),
{
    if d < 10 {
        (48 + d) as char
    } else {
        (87 + d) as char
    }
}

/// Bytes as upper-case hexadecimal pairs, separated by spaces.
pub fn spaced_hex(bytes: &[u8]) -> (out: String)
    ensures
        out@ == hex_pairs(bytes@),
{
    let mut out: String = "".to_string();
    proof {
        reveal_strlit("");
        assert(bytes@.take(0) =~= Seq::<u8>::empty());
    }
    let mut i: usize = 0;
    while i < bytes.len()
        invariant
            i <= bytes@.len(),
            out@ == hex_pairs(bytes@.take(i as int)),
        decreases bytes@.len() - i,
    {
        if i > 0 {
            out.push(' ');
        }
        push_hex_upper(&mut out, bytes[i]);
        i = i + 1;
        proof {
            let part = bytes@.take(i as int);
            assert(part.drop_last() =~= bytes@.take(i - 1));
            assert(out@ =~= hex_pairs(part));
        }
    }
    assert(bytes@.take(bytes@.len() as int) =~= bytes@);
    out
}

/// A row passes the filter: its bytes in hexadecimal, or its number, hold the text
/// that is looked for.
pub open spec fn passes(row: FrameRow, wanted: Seq<char>) -> bool {
    occurs(hex_run(row.raw@), wanted) || occurs(decimal(row.index as nat), wanted)
}

/// The text that a filter looks for.
pub open spec fn wanted(filter: Seq<char>) -> Seq<char> {
    lowered(trimmed(filter))
}

/// The positions of the first `n` rows that pass, in order.
pub open spec fn passing(rows: Seq<FrameRow>, text: Seq<char>, n: nat) -> Seq<usize>
    decreases n,
{
    if n == 0 {
        Seq::empty()
    } else if text.len() == 0 || passes(rows[n - 1], text) {
        passing(rows, text, (n - 1) as nat).push((n - 1) as usize)
    } else {
        passing(rows, text, (n - 1) as nat)
    }
}

/// The positions of the rows that the table shows, in order. The filter is trimmed
/// and compared in lower case with the bytes in hexadecimal and with the number of
/// the frame; an empty filter shows all rows.
pub fn visible_rows(rows: &VecDeque<FrameRow>, filter: &str) -> (slots: Vec<usize>)
    ensures
        slots@ == passing(rows@, wanted(filter@), rows@.len()),
{
    let trimmed_filter = trim_chars(chars_of(filter).as_slice());
    let text = lower_chars(trimmed_filter.as_slice());
    let mut slots: Vec<usize> = Vec::new();
    let mut i: usize = 0;
    while i < rows.len()
        invariant
            i <= rows@.len(),
            text@ == wanted(filter@),
            slots@ == passing(rows@, text@, i as nat),
        decreases rows@.len() - i,
    {
        let shown: bool = if text.len() == 0 {
            true
        } else {
            let row = &rows[i];
            let digits = hex_digits(&row.raw);
            if contains_chars(digits.as_slice(), text.as_slice()) {
                true
            } else {
                let number = chars_of(decimal_string(row.index as u64).as_str());
                contains_chars(number.as_slice(), text.as_slice())
            }
        };
        if shown {
            slots.push(i);
        }
        i = i + 1;
    }
    slots
}

/// The text of a value: integers and flags here, real numbers and byte strings as
/// written elsewhere.
pub open spec fn value_text(value: TelemetryValue, written: Seq<char>) -> Seq<char> {
    match value {
        TelemetryValue::Int(n) => signed_decimal(n as int),
        TelemetryValue::Bool(b) => if b {
            "true"@
        } else {
            "false"@
        },
        _ => written,
    }
}

/// The text of a value with its unit.
pub open spec fn field_text(field: TelemetryField, written: Seq<char>) -> Seq<char> {
    let value = value_text(field.value, written);
    match field.unit {
        Some(unit) => if unit@.len() == 0 {
            value
        } else {
            value + " "@ + unit@
        },
        None => value,
    }
}

/// The text of a telemetry value with its unit. `written` is the text of the value
/// where it is a real number or a byte string.
pub fn format_telemetry(field: &TelemetryField, written: &str) -> (text: String)
    ensures
        text@ == field_text(*field, written@),
{
    let value: String = match &field.value {
        TelemetryValue::Int(n) => signed_string(*n),
        TelemetryValue::Bool(b) => if *b {
            "true".to_string()
        } else {
            "false".to_string()
        },
        _ => written.to_string(),
    };
    match &field.unit {
        Some(unit) => {
            if chars_of(unit.as_str()).len() == 0 {
                value
            } else {
                value.concat(" ").concat(unit.as_str())
            }
        },
        None => value,
    }
}

/// The smaller of two numbers.
pub open spec fn smaller(a: int, b: int) -> int {
    if a < b {
        a
    } else {
        b
    }
}

/// The preview of a row: its first telemetry value, or its first sixteen bytes.
pub open spec fn preview(row: FrameRow, written: Seq<char>) -> Seq<char> {
    if row.telemetry@.len() > 0 {
        let field = row.telemetry@[0];
        field.group@ + "."@ + field.key@ + " = "@ + field_text(field, written)
    } else if row.raw@.len() == 0 {
        "-"@
    } else if row.raw@.len() <= 16 {
        hex_pairs(row.raw@)
    } else {
        hex_pairs(row.raw@.take(16)) + " .."@
    }
}

/// The preview of a row for the table. `written` is the text of the first telemetry
/// value where that is a real number or a byte string.
pub fn frame_info_preview(row: &FrameRow, written: &str) -> (text: String)
    ensures
        text@ == preview(*row, written@),
{
    if row.telemetry.len() > 0 {
        let field = &row.telemetry[0];
        let value = format_telemetry(field, written);
        return field.group.clone().concat(".").concat(field.key.as_str()).concat(" = ").concat(
            value.as_str(),
        );
    }
    let len: usize = row.raw.len();
    if len == 0 {
        "-".to_string()
    } else if len <= 16 {
        spaced_hex(row.raw.as_slice())
    } else {
        let head = copy_range(row.raw.as_slice(), 0, 16);
        assert(head@ =~= row.raw@.take(16));
        spaced_hex(head.as_slice()).concat(" ..")
    }
}

/// A byte as a character; those that cannot be shown as a point.
pub open spec fn shown_char(b: u8) -> char {
    if 32 <= b <= 126 {
        b as char
    } else {
        '.'
    }
}

/// A text followed by spaces, up to `width` characters.
pub open spec fn filled(text: Seq<char>, width: nat) -> Seq<char> {
    if text.len() >= width {
        text
    } else {
        text + Seq::new((width - text.len()) as nat, |i: int| ' ')
    }
}

/// The bytes of line `k` of a dump.
pub open spec fn dump_bytes(raw: Seq<u8>, k: int) -> Seq<u8> {
    raw.subrange(16 * k, smaller(16 * k + 16, raw.len() as int))
}

/// Line `k` of a dump: the address, sixteen bytes in hexadecimal, and the same bytes
/// as characters.
pub open spec fn dump_line(raw: Seq<u8>, k: int) -> Seq<char> {
    let bytes = dump_bytes(raw, k);
    padded(hexadecimal((16 * k) as nat), '0', 4) + "   "@ + filled(hex_pairs(bytes), 47) + "   "@
        + Seq::new(bytes.len(), |i: int| shown_char(bytes[i]))
}

/// The number of lines of a dump.
pub open spec fn dump_len(raw: Seq<u8>) -> nat {
    ((raw.len() + 15) / 16) as nat
}

proof fn lemma_pairs_len(bytes: Seq<u8>)
    ensures
        hex_pairs(bytes).len() == (if bytes.len() == 0 {
            0
        } else {
            3 * bytes.len() - 1
        }),
    decreases bytes.len(),
{
    if bytes.len() > 1 {
        lemma_pairs_len(bytes.drop_last());
    }
}

fn dump_row(raw: &Vec<u8>, k: usize) -> (line: String)
    requires
        16 * k < raw@.len(),
    ensures
        line@ == dump_line(raw@, k as int),
{
    let len: usize = raw.len();
    let from: usize = 16 * k;
    let to: usize = if len - from > 16 { from + 16 } else { len };
    let bytes = copy_range(raw.as_slice(), from, to);
    assert(bytes@ =~= dump_bytes(raw@, k as int));
    let pairs = spaced_hex(bytes.as_slice());
    proof {
        lemma_pairs_len(bytes@);
    }
    let mut line: String = hex_address(from as u64).concat("   ").concat(pairs.as_str());
    let ghost head = line@;
    let mut width: usize = 3 * bytes.len() - 1;
    let ghost start = width;
    while width < 47
        invariant
            start <= width <= 47,
            line@ == head + Seq::new((width - start) as nat, |i: int| ' '),
        decreases 47 - width,
    {
        line.push(' ');
        width = width + 1;
        assert(line@ =~= head + Seq::new((width - start) as nat, |i: int| ' '));
    }
    let mut shown: Vec<char> = Vec::new();
    let mut i: usize = 0;
    while i < bytes.len()
        invariant
            i <= bytes@.len(),
            shown@ == Seq::new(i as nat, |j: int| shown_char(bytes@[j])),
        decreases bytes@.len() - i,
    {
        let b: u8 = bytes[i];
        shown.push(if 32 <= b && b <= 126 { b as char } else { '.' });
        i = i + 1;
        assert(shown@ =~= Seq::new(i as nat, |j: int| shown_char(bytes@[j])));
    }
    let res = line.concat("   ").concat(text_from(shown.as_slice()).as_str());
    assert(res@ =~= dump_line(raw@, k as int));
    res
}

/// The hexadecimal dump of a frame, line by line.
pub fn hex_dump(raw: &Vec<u8>) -> (lines: Vec<String>)
    ensures
        lines@.len() == dump_len(raw@),
        forall|k: int| 0 <= k < lines@.len() ==> #[trigger] lines@[k]@ == dump_line(raw@, k),
{
    let len: usize = raw.len();
    let count: usize = len / 16 + if len % 16 == 0 { 0 } else { 1 };
    let mut lines: Vec<String> = Vec::new();
    let mut k: usize = 0;
    while k < count
        invariant
            k <= count,
            count == dump_len(raw@),
            lines@.len() == k,
            forall|j: int| 0 <= j < k ==> #[trigger] lines@[j]@ == dump_line(raw@, j),
        decreases count - k,
    {
        lines.push(dump_row(raw, k));
        k = k + 1;
    }
    lines
}

/// The texts of a row that are written elsewhere: real numbers, and bytes in
/// hexadecimal.
#[derive(Debug)]
pub struct RowTexts {
    /// Seconds since reception started, with three decimals.
    pub seconds: String,
    /// Signal strength with one decimal, where the row has one.
    pub rssi: Option<String>,
    /// The bytes of the frame.
    pub raw: String,
    /// The telemetry values, one by one; used for real numbers and byte strings.
    pub values: Vec<String>,
}

/// The export of the first `n` telemetry values.
pub open spec fn fields_export(fields: Seq<TelemetryField>, values: Seq<String>, n: nat) -> Seq<
    char,
>
    decreases n,
{
    if n == 0 {
        Seq::empty()
    } else {
        let field = fields[n - 1];
        fields_export(fields, values, (n - 1) as nat) + "  "@ + field.group@ + "."@ + field.key@
            + ": "@ + field_text(field, values[n - 1]@) + "\n"@
    }
}

/// The export of one row.
pub open spec fn row_export(row: FrameRow, texts: RowTexts) -> Seq<char> {
    let head = "# Frame "@ + decimal(row.index as nat) + "\ntime: "@ + texts.seconds@
        + "s\nsource: "@ + row.source@ + "\ndestination: "@ + row.destination@ + "\nkind: "@
        + row.kind.word() + "\n"@;
    let strength = match texts.rssi {
        Some(rssi) => head + "rssi_dbm: "@ + rssi@ + "\n"@,
        None => head,
    };
    let bytes = strength + "raw: "@ + texts.raw@ + "\n"@;
    let all = if row.telemetry@.len() == 0 {
        bytes
    } else {
        bytes + "telemetry:\n"@ + fields_export(
            row.telemetry@,
            texts.values@,
            row.telemetry@.len(),
        )
    };
    all + "\n"@
}

/// The export of the first `n` rows.
pub open spec fn rows_export(rows: Seq<FrameRow>, texts: Seq<RowTexts>, n: nat) -> Seq<char>
    decreases n,
{
    if n == 0 {
        Seq::empty()
    } else {
        rows_export(rows, texts, (n - 1) as nat) + row_export(rows[n - 1], texts[n - 1])
    }
}

/// The head of an export.
pub open spec fn export_head(satellite: Option<(Seq<char>, u32)>, frames: nat) -> Seq<char> {
    let title = "# OpenHoshimi frame export\n"@;
    let about = match satellite {
        Some((name, norad_id)) => title + "# satellite: "@ + name + "\n# norad_id: "@ + decimal(
            norad_id as nat,
        ) + "\n"@,
        None => title,
    };
    about + "# frames: "@ + decimal(frames) + "\n\n"@
}

/// The contents of an optional satellite's name and number.
pub open spec fn satellite_view(satellite: Option<(String, u32)>) -> Option<(Seq<char>, u32)> {
    match satellite {
        Some((name, norad_id)) => Some((name@, norad_id)),
        None => None,
    }
}

fn export_row(row: &FrameRow, texts: &RowTexts) -> (text: String)
    requires
        texts.values@.len() == row.telemetry@.len(),
    ensures
        text@ == row_export(*row, *texts),
{
    let mut text = "# Frame ".to_string().concat(decimal_string(row.index as u64).as_str()).concat(
        "\ntime: ",
    ).concat(texts.seconds.as_str()).concat("s\nsource: ").concat(row.source.as_str()).concat(
        "\ndestination: ",
    ).concat(row.destination.as_str()).concat("\nkind: ").concat(row.kind.label()).concat("\n");
    match &texts.rssi {
        Some(rssi) => {
            text = text.concat("rssi_dbm: ").concat(rssi.as_str()).concat("\n");
        },
        None => {},
    }
    text = text.concat("raw: ").concat(texts.raw.as_str()).concat("\n");
    if row.telemetry.len() > 0 {
        text = text.concat("telemetry:\n");
        let ghost before = text@;
        let mut i: usize = 0;
        assert(text@ =~= before + fields_export(row.telemetry@, texts.values@, 0));
        while i < row.telemetry.len()
            invariant
                i <= row.telemetry@.len(),
                texts.values@.len() == row.telemetry@.len(),
                text@ == before + fields_export(row.telemetry@, texts.values@, i as nat),
            decreases row.telemetry@.len() - i,
        {
            let field = &row.telemetry[i];
            let value = format_telemetry(field, texts.values[i].as_str());
            text = text.concat("  ").concat(field.group.as_str()).concat(".").concat(
                field.key.as_str(),
            ).concat(": ").concat(value.as_str()).concat("\n");
            i = i + 1;
            assert(text@ =~= before + fields_export(row.telemetry@, texts.values@, i as nat));
        }
    }
    text.concat("\n")
}

/// The text of an export: a head with the satellite and the number of frames, and a
/// paragraph for every row.
pub fn export_text(
    satellite: &Option<(String, u32)>,
    rows: &VecDeque<FrameRow>,
    texts: &Vec<RowTexts>,
) -> (text: String)
    requires
        texts@.len() == rows@.len(),
        forall|i: int|
            0 <= i < rows@.len() ==> (#[trigger] texts@[i]).values@.len()
                == rows@[i].telemetry@.len(),
        forall|i: int|
            0 <= i < rows@.len() ==> ((#[trigger] texts@[i]).rssi is Some <==> rows@[i].rssi_dbm is Some),
    ensures
        text@ == export_head(satellite_view(*satellite), rows@.len()) + rows_export(
            rows@,
            texts@,
            rows@.len(),
        ),
{
    let mut text = "# OpenHoshimi frame export\n".to_string();
    match satellite {
        Some((name, norad_id)) => {
            text = text.concat("# satellite: ").concat(name.as_str()).concat(
                "\n# norad_id: ",
            ).concat(decimal_string(*norad_id as u64).as_str()).concat("\n");
        },
        None => {},
    }
    text = text.concat("# frames: ").concat(decimal_string(rows.len() as u64).as_str()).concat(
        "\n\n",
    );
    let ghost head = text@;
    let mut i: usize = 0;
    assert(text@ =~= head + rows_export(rows@, texts@, 0));
    while i < rows.len()
        invariant
            i <= rows@.len(),
            texts@.len() == rows@.len(),
            forall|j: int|
                0 <= j < rows@.len() ==> (#[trigger] texts@[j]).values@.len()
                    == rows@[j].telemetry@.len(),
            text@ == head + rows_export(rows@, texts@, i as nat),
        decreases rows@.len() - i,
    {
        let part = export_row(&rows[i], &texts[i]);
        text = text.concat(part.as_str());
        i = i + 1;
        assert(text@ =~= head + rows_export(rows@, texts@, i as nat));
    }
    text
}

/// A character of a file name: spaces and slashes become underscores.
pub open spec fn name_char(c: char) -> char {
    if c == ' ' || c == '/' {
        '_'
    } else {
        c
    }
}

/// The name proposed for an export.
pub open spec fn export_name(satellite: Option<Seq<char>>) -> Seq<char> {
    match satellite {
        Some(name) => "openhoshimi_"@ + Seq::new(name.len(), |i: int| name_char(name[i]))
            + ".txt"@,
        None => "openhoshimi_frames.txt"@,
    }
}

/// The file name that is proposed for an export of the frames of a satellite.
pub fn export_file_name(satellite: Option<&str>) -> (name: String)
    ensures
        name@ == export_name(
            match satellite {
                Some(s) => Some(s@),
                None => None,
            },
        ),
{
    match satellite {
        Some(name) => {
            let chars = chars_of(name);
            let mut out: Vec<char> = Vec::new();
            let mut i: usize = 0;
            while i < chars.len()
                invariant
                    i <= chars@.len(),
                    out@ == Seq::new(i as nat, |j: int| name_char(chars@[j])),
                decreases chars@.len() - i,
            {
                let c: char = chars[i];
                out.push(if c == ' ' || c == '/' { '_' } else { c });
                i = i + 1;
                assert(out@ =~= Seq::new(i as nat, |j: int| name_char(chars@[j])));
            }
            assert(out@ =~= Seq::new(name@.len(), |j: int| name_char(name@[j])));
            "openhoshimi_".to_string().concat(text_from(out.as_slice()).as_str()).concat(".txt")
        },
        None => "openhoshimi_frames.txt".to_string(),
    }
}

/// An empty filter, or one of white space alone, shows every row.
pub proof fn law_empty_filter_shows_all(rows: Seq<FrameRow>, filter: Seq<char>, n: nat)
    requires
        n <= rows.len(),
        rows.len() <= usize::MAX,
        trimmed(filter).len() == 0,
    ensures
        passing(rows, wanted(filter), n) == Seq::new(n, |i: int| i as usize),
    decreases n,
{
    if n > 0 {
        law_empty_filter_shows_all(rows, filter, (n - 1) as nat);
    }
    assert(passing(rows, wanted(filter), n) =~= Seq::new(n, |i: int| i as usize));
}

/// The table shows a row exactly where it passes the filter, and every row at most
/// once, in the order of arrival.
pub proof fn law_filter_is_exact(rows: Seq<FrameRow>, text: Seq<char>, n: nat)
    requires
        n <= rows.len(),
        rows.len() <= usize::MAX,
        text.len() > 0,
    ensures
        forall|i: int|
            0 <= i < n ==> (#[trigger] passes(rows[i], text) <==> passing(rows, text, n).contains(
                i as usize,
            )),
        forall|a: int, b: int|
            0 <= a < b < passing(rows, text, n).len() ==> passing(rows, text, n)[a] < passing(
                rows,
                text,
                n,
            )[b],
        forall|a: int|
            0 <= a < passing(rows, text, n).len() ==> #[trigger] passing(rows, text, n)[a] < n,
    decreases n,
{
    if n > 0 {
        let m = (n - 1) as nat;
        law_filter_is_exact(rows, text, m);
        let before = passing(rows, text, m);
        let all = passing(rows, text, n);
        assert forall|i: int| 0 <= i < n implies (#[trigger] passes(rows[i], text)
            <==> all.contains(i as usize)) by {
            if i < m {
                if before.contains(i as usize) {
                    let k = choose|k: int| 0 <= k < before.len() && before[k] == i as usize;
                    assert(all[k] == i as usize);
                }
                if all.contains(i as usize) {
                    let k = choose|k: int| 0 <= k < all.len() && all[k] == i as usize;
                    assert(before[k] == i as usize);
                }
            } else {
                if passes(rows[i], text) {
                    assert(all[all.len() - 1] == i as usize);
                } else if all.contains(i as usize) {
                    let k = choose|k: int| 0 <= k < all.len() && all[k] == i as usize;
                    assert(before[k] < m);
                }
            }
        }
    }
}

/// A frame that the codec decodes is listed with the same sender, addressee, mark
/// and schema input on both ways, where it is AX.25 or Geoscan.
pub proof fn law_both_ways_list_the_same(frame_raw: Seq<u8>, decoded: DecodedFrame)
    requires
        decoded is Ax25 || decoded is Geoscan,
    ensures
        framed_row(frame_raw, decoded) == decoded_row(decoded),
{
}

/// A payload whose checksum failed is never read as telemetry on an AX100 downlink,
/// and an SSDV packet never is.
pub proof fn law_no_telemetry_from_damaged(frame_raw: Seq<u8>, decoded: DecodedFrame)
    requires
        match decoded {
            DecodedFrame::Ssdv(_) => true,
            DecodedFrame::Ax100 { payload, crc_ok } => crc_ok == Some(false),
            _ => false,
        },
    ensures
        decoded_row(decoded).schema_input is None,
        framed_row(frame_raw, decoded).schema_input is None,
{
}

} // verus!
