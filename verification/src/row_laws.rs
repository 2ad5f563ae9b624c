//! What the table, the dump and the export show of a frame.
use vstd::prelude::*;
use crate::model::TelemetryField;
use crate::rows::{
    ax25_kind, decoded_row, dump_len, dump_line, export_head, export_name, field_text,
    fields_export, framed_row, hex_pairs, hex_run, image_bytes, image_crc, is_row, lower_bytes,
    preview, row_export, rows_export, satellite_view, says_wod, ssdv_destination, ssdv_source,
    value_text, DecodedFrame, Elapsed, FrameKind, FrameRow, PendingRow, RowModel, RowTexts,
};
use crate::satellite::Real32;
use crate::text::{
    decimal, hex_value, law_case, law_decimal_is_read_back, law_hex_is_read_back, number,
};
use crate::word_laws::{hex_number, law_hexadecimal_is_read_back};
use crate::words::{hexadecimal, padded, stands_at};

verus! {

/// The byte is this letter of the alphabet, small or capital.
pub open spec fn is_letter(b: u8, letter: int) -> bool {
    b == 0x61 + letter || b == 0x41 + letter
}

/// The letters W, O and D stand in the bytes one behind the other.
pub open spec fn spells_wod(info: Seq<u8>, i: int) -> bool {
    &&& 0 <= i <= info.len() - 3
    &&& is_letter(info[i], 22)
    &&& is_letter(info[i + 1], 14)
    &&& is_letter(info[i + 2], 3)
}

/// AX.25 frames without contents are faults, those that say WOD in any case are whole-orbit
/// data, and all others are telemetry.
pub proof fn law_kinds_of_ax25_frames(info: Seq<u8>)
    ensures
        ax25_kind(info) == FrameKind::Fault <==> info.len() == 0,
        ax25_kind(info) == FrameKind::Wod <==> exists|i: int| #[trigger] spells_wod(info, i),
        ax25_kind(info) != FrameKind::Raw,
{
    let low = lower_bytes(info);
    let wod = seq![119u8, 111u8, 100u8];
    if says_wod(info) {
        let at = choose|at: int| stands_at(low, wod, at);
        let part = low.subrange(at, at + 3);
        assert(part[0] == low[at] && part[1] == low[at + 1] && part[2] == low[at + 2]);
        law_case(info[at]);
        law_case(info[at + 1]);
        law_case(info[at + 2]);
        assert(spells_wod(info, at));
    }
    if exists|i: int| #[trigger] spells_wod(info, i) {
        let at = choose|i: int| #[trigger] spells_wod(info, i);
        assert(low.subrange(at, at + 3) =~= wod);
        assert(stands_at(low, wod, at));
    }
}

/// Which bytes a row shows and which of them are read as telemetry, on both ways: the
/// contents of an AX.25, AO-40 or AX100 frame, the payload of a Geoscan frame, and of an
/// SSDV packet the payload, or all of it where the framer found it. Raw frames show what
/// the framer found, or as many zeros.
pub proof fn law_rows_show_their_frames(frame_raw: Seq<u8>, decoded: DecodedFrame)
    ensures
        ({
            let there = decoded_row(decoded);
            let found = framed_row(frame_raw, decoded);
            match decoded {
                DecodedFrame::Ax25(f) => {
                    &&& there.source == f.source.call@ && there.destination == f.destination.call@
                    &&& there.raw == f.info@ && there.schema_input == Some(f.info@)
                    &&& found.source == f.source.call@ && found.destination == f.destination.call@
                    &&& found.raw == f.info@ && found.schema_input == Some(f.info@)
                },
                DecodedFrame::Ao40 { payload } => {
                    &&& there.raw == payload@ && there.schema_input == Some(payload@)
                    &&& found.raw == payload@ && found.schema_input == Some(payload@)
                    &&& there.kind == FrameKind::Tlm && found.kind == FrameKind::Tlm
                },
                DecodedFrame::Ax100 { payload, crc_ok } => {
                    let damaged = crc_ok == Some(false);
                    &&& there.raw == payload@ && found.raw == payload@
                    &&& damaged ==> there.schema_input is None && found.schema_input is None
                    &&& !damaged ==> there.schema_input == Some(payload@) && found.schema_input
                        == Some(payload@)
                    &&& there.kind == FrameKind::Fault <==> damaged
                    &&& there.kind == FrameKind::Tlm <==> !damaged
                    &&& found.kind == FrameKind::Tlm
                },
                DecodedFrame::Geoscan(f) => {
                    &&& there.raw == f.payload@ && there.schema_input == Some(f.payload@)
                    &&& found.raw == f.payload@ && found.schema_input == Some(f.payload@)
                    &&& there.kind == FrameKind::Tlm <==> f.crc_ok
                    &&& there.kind == FrameKind::Fault <==> !f.crc_ok
                    &&& found.kind == there.kind
                },
                DecodedFrame::Ssdv(p) => {
                    &&& there.raw == p.payload@ && found.raw == p.raw@
                    &&& there.schema_input is None && found.schema_input is None
                    &&& p.callsign@.len() > 0 ==> there.source == p.callsign@ && found.source
                        == p.callsign@
                    &&& there.kind == FrameKind::Tlm <==> p.crc_ok
                    &&& there.kind == FrameKind::Fault <==> !p.crc_ok
                    &&& found.kind == there.kind && found.destination == there.destination
                },
                DecodedFrame::Raw { raw_len } => {
                    &&& there.raw.len() == raw_len
                    &&& forall|i: int| 0 <= i < raw_len ==> #[trigger] there.raw[i] == 0
                    &&& there.schema_input is None
                    &&& found.raw == frame_raw && found.schema_input == Some(frame_raw)
                    &&& there.kind == FrameKind::Raw && found.kind == FrameKind::Raw
                },
            }
        }),
{
}

/// Only Geoscan frames and SSDV packets carry pieces of images, with their checksums.
pub proof fn law_pieces_of_images(decoded: DecodedFrame)
    ensures
        match decoded {
            DecodedFrame::Geoscan(f) => image_bytes(decoded) == Some(f.payload@) && image_crc(
                decoded,
            ) == Some(f.crc_ok),
            DecodedFrame::Ssdv(p) => image_bytes(decoded) == Some(p.raw@) && image_crc(decoded)
                == Some(p.crc_ok),
            _ => image_bytes(decoded) is None && image_crc(decoded) is None,
        },
{
}

/// The two characters at `at` are the byte in hexadecimal, the high digit first.
pub open spec fn reads_as(text: Seq<char>, at: int, b: u8) -> bool {
    &&& hex_value(text[at]) is Some
    &&& hex_value(text[at + 1]) is Some
    &&& 16 * hex_value(text[at])->Some_0 + hex_value(text[at + 1])->Some_0 == b
}

/// Bytes in hexadecimal take two digits each, in small letters, or in capitals with a
/// space between every two bytes.
pub proof fn law_bytes_in_hexadecimal(bytes: Seq<u8>)
    ensures
        hex_run(bytes).len() == 2 * bytes.len(),
        forall|i: int| 0 <= i < bytes.len() ==> reads_as(hex_run(bytes), 2 * i, #[trigger] bytes[i]),
        forall|i: int|
            0 <= i < 2 * bytes.len() ==> !('A' <= #[trigger] hex_run(bytes)[i] <= 'F'),
        bytes.len() > 0 ==> hex_pairs(bytes).len() == 3 * bytes.len() - 1,
        bytes.len() == 0 ==> hex_pairs(bytes).len() == 0,
        forall|i: int|
            0 <= i < bytes.len() ==> reads_as(hex_pairs(bytes), 3 * i, #[trigger] bytes[i]),
        forall|i: int| 0 <= i < bytes.len() - 1 ==> hex_pairs(bytes)[#[trigger] (3 * i + 2)] == ' ',
        forall|i: int|
            0 <= i < hex_pairs(bytes).len() ==> !('a' <= #[trigger] hex_pairs(bytes)[i] <= 'f'),
    decreases bytes.len(),
{
    if bytes.len() > 0 {
        let before = bytes.drop_last();
        law_bytes_in_hexadecimal(before);
        law_hex_is_read_back(bytes.last());
        let n = bytes.len();
        assert forall|i: int| 0 <= i < n implies reads_as(
            hex_run(bytes),
            2 * i,
            #[trigger] bytes[i],
        ) by {
            if i < n - 1 {
                assert(before[i] == bytes[i]);
                assert(reads_as(hex_run(before), 2 * i, before[i]));
            }
        }
        assert forall|i: int| 0 <= i < 2 * n implies !('A' <= #[trigger] hex_run(bytes)[i]
            <= 'F') by {
            if i < 2 * (n - 1) {
                assert(hex_run(bytes)[i] == hex_run(before)[i]);
            }
        }
        assert forall|i: int| 0 <= i < n implies reads_as(
            hex_pairs(bytes),
            3 * i,
            #[trigger] bytes[i],
        ) by {
            if i < n - 1 {
                assert(before[i] == bytes[i]);
                assert(reads_as(hex_pairs(before), 3 * i, before[i]));
            }
        }
        assert forall|i: int| 0 <= i < n - 1 implies hex_pairs(bytes)[#[trigger] (3 * i + 2)]
            == ' ' by {
            if i < n - 2 {
                assert(hex_pairs(before)[3 * i + 2] == ' ');
            }
        }
        assert forall|i: int| 0 <= i < hex_pairs(bytes).len() implies !('a'
            <= #[trigger] hex_pairs(bytes)[i] <= 'f') by {
            if n > 1 && i < 3 * (n - 1) - 1 {
                assert(hex_pairs(bytes)[i] == hex_pairs(before)[i]);
            }
        }
    }
}

proof fn lemma_leading_zeros(text: Seq<char>, width: nat)
    requires
        text.len() > 0,
    ensures
        hex_number(padded(text, '0', width)) == hex_number(text),
    decreases text.len(),
{
    let p = padded(text, '0', width);
    if text.len() < width {
        let zeros = Seq::new((width - text.len()) as nat, |i: int| '0');
        lemma_zeros(zeros);
        lemma_joined_digits(zeros, text);
        assert(p == zeros + text);
    }
}

proof fn lemma_zeros(zeros: Seq<char>)
    requires
        forall|i: int| 0 <= i < zeros.len() ==> #[trigger] zeros[i] == '0',
    ensures
        hex_number(zeros) == 0,
    decreases zeros.len(),
{
    if zeros.len() > 0 {
        lemma_zeros(zeros.drop_last());
    }
}

proof fn lemma_joined_digits(zeros: Seq<char>, text: Seq<char>)
    requires
        hex_number(zeros) == 0,
    ensures
        hex_number(zeros + text) == hex_number(text),
    decreases text.len(),
{
    if text.len() == 0 {
        assert(zeros + text =~= zeros);
    } else {
        lemma_joined_digits(zeros, text.drop_last());
        assert((zeros + text).drop_last() =~= zeros + text.drop_last());
    }
}

/// A line of the dump shows the place of its first byte in at least four hexadecimal
/// digits, its bytes in columns three apart, and behind them each byte as the character
/// that it is, or as a point where it is none that can be shown. Lines hold sixteen bytes,
/// but for the last.
pub proof fn law_dump_lines(raw: Seq<u8>, i: int)
    requires
        0 <= i < raw.len(),
    ensures
        ({
            let k = i / 16;
            let line = dump_line(raw, k);
            let count = if 16 * k + 16 <= raw.len() {
                16
            } else {
                raw.len() - 16 * k
            };
            let a = line.len() - 53 - count;
            let shown = line[a + 53 + i % 16];
            &&& 0 <= k < dump_len(raw)
            &&& a >= 4
            &&& a == 4 || i >= 65536
            &&& hex_number(line.take(a)) == 16 * k
            &&& reads_as(line, a + 3 + 3 * (i % 16), raw[i])
            &&& 0x20 <= raw[i] <= 0x7E ==> shown as int == raw[i]
            &&& !(0x20 <= raw[i] <= 0x7E) ==> shown == '.'
        }),
        16 * dump_len(raw) >= raw.len() > 16 * (dump_len(raw) - 1),
{
    let k = i / 16;
    let bytes = crate::rows::dump_bytes(raw, k);
    let digits = hexadecimal((16 * k) as nat);
    let head = padded(digits, '0', 4);
    let middle = crate::rows::filled(hex_pairs(bytes), 47);
    let tail = Seq::new(bytes.len(), |j: int| crate::rows::shown_char(bytes[j]));
    let line = dump_line(raw, k);
    let a = head.len() as int;
    reveal_strlit("   ");
    law_hexadecimal_is_read_back((16 * k) as nat);
    lemma_leading_zeros(digits, 4);
    law_bytes_in_hexadecimal(bytes);
    assert(bytes[i % 16] == raw[i]);
    assert(line == head + "   "@ + middle + "   "@ + tail);
    assert(line.take(a) =~= head);
    assert(reads_as(hex_pairs(bytes), 3 * (i % 16), bytes[i % 16]));
    assert(line[a + 3 + 3 * (i % 16)] == hex_pairs(bytes)[3 * (i % 16)]);
    assert(line[a + 3 + 3 * (i % 16) + 1] == hex_pairs(bytes)[3 * (i % 16) + 1]);
    assert(line[a + 53 + i % 16] == tail[i % 16]);
    if i < 65536 {
        lemma_short_hexadecimal((16 * k) as nat);
    }
}

proof fn lemma_short_hexadecimal(n: nat)
    requires
        n < 65536,
    ensures
        hexadecimal(n).len() <= 4,
{
    reveal_with_fuel(hexadecimal, 5);
}

/// The preview of a row without telemetry is its first bytes, at most sixteen, with
/// two points behind them where there are more.
pub proof fn law_preview_shows_the_first_bytes(row: FrameRow, written: Seq<char>, i: int)
    requires
        row.telemetry@.len() == 0,
        0 <= i < row.raw@.len(),
        i < 16,
    ensures
        reads_as(preview(row, written), 3 * i, row.raw@[i]),
        row.raw@.len() <= 16 ==> preview(row, written).len() == 3 * row.raw@.len() - 1,
        row.raw@.len() > 16 ==> preview(row, written).len() == 50 && preview(row, written).skip(47)
            == seq![' ', '.', '.'],
{
    reveal_strlit(" ..");
    let bytes = if row.raw@.len() <= 16 {
        row.raw@
    } else {
        row.raw@.take(16)
    };
    law_bytes_in_hexadecimal(bytes);
    assert(bytes[i] == row.raw@[i]);
    assert(reads_as(hex_pairs(bytes), 3 * i, bytes[i]));
    let text = preview(row, written);
    assert(text[3 * i] == hex_pairs(bytes)[3 * i]);
    assert(text[3 * i + 1] == hex_pairs(bytes)[3 * i + 1]);
    if row.raw@.len() > 16 {
        assert(text.skip(47) =~= seq![' ', '.', '.']);
    }
}

/// A value is followed by its unit, if it has one.
pub proof fn law_units_follow_values(field: TelemetryField, written: Seq<char>)
    ensures
        ({
            let value = value_text(field.value, written);
            let text = field_text(field, written);
            &&& (field.unit matches Some(u) ==> u@.len() == 0) ==> text == value
            &&& field.unit matches Some(u) ==> u@.len() > 0 ==> {
                &&& text.len() == value.len() + 1 + u@.len()
                &&& text.take(value.len() as int) == value
                &&& text[value.len() as int] == ' '
                &&& text.skip(value.len() as int + 1) == u@
            }
        }),
{
    reveal_strlit(" ");
    let value = value_text(field.value, written);
    let text = field_text(field, written);
    if let Some(u) = field.unit {
        if u@.len() > 0 {
            assert(text.take(value.len() as int) =~= value);
            assert(text.skip(value.len() as int + 1) =~= u@);
        }
    }
}

/// The name of an export is the satellite's, without spaces and slashes.
pub proof fn law_export_names(name: Seq<char>, i: int)
    requires
        0 <= i < name.len(),
    ensures
        export_name(Some(name)).len() == name.len() + 16,
        name[i] == ' ' || name[i] == '/' ==> export_name(Some(name))[12 + i] == '_',
        name[i] != ' ' && name[i] != '/' ==> export_name(Some(name))[12 + i] == name[i],
{
    reveal_strlit("openhoshimi_");
    reveal_strlit(".txt");
}

/// A line of text.
pub open spec fn line(text: Seq<char>) -> Seq<char> {
    text.push('\n')
}

/// Each value is exported on a line of its own, in order.
pub proof fn law_export_of_values(fields: Seq<TelemetryField>, values: Seq<String>, n: nat)
    requires
        n < fields.len(),
        n < values.len(),
    ensures
        fields_export(fields, values, 0).len() == 0,
        fields_export(fields, values, n + 1) == fields_export(fields, values, n) + line(
            "  "@ + fields[n as int].group@ + "."@ + fields[n as int].key@ + ": "@ + field_text(
                fields[n as int],
                values[n as int]@,
            ),
        ),
{
    reveal_strlit("\n");
    let f = fields[n as int];
    let head = fields_export(fields, values, n);
    let text = "  "@ + f.group@ + "."@ + f.key@ + ": "@ + field_text(f, values[n as int]@);
    assert(head + "  "@ + f.group@ + "."@ + f.key@ + ": "@ + field_text(f, values[n as int]@)
        + "\n"@ =~= head + line(text));
}

/// The word for the mark of a row.
pub open spec fn mark(kind: FrameKind) -> Seq<char> {
    match kind {
        FrameKind::Tlm => "Tlm"@,
        FrameKind::Wod => "Wod"@,
        FrameKind::Fault => "Err"@,
        FrameKind::Raw => "Raw"@,
    }
}

/// The first lines of the export of a row.
pub open spec fn head_lines(row: FrameRow, texts: RowTexts) -> Seq<char> {
    line("# Frame "@ + decimal(row.index as nat)) + line("time: "@ + texts.seconds@ + "s"@) + line(
        "source: "@ + row.source@,
    ) + line("destination: "@ + row.destination@) + line("kind: "@ + mark(row.kind))
}

proof fn lemma_head_lines(row: FrameRow, texts: RowTexts)
    ensures
        head_lines(row, texts) == "# Frame "@ + decimal(row.index as nat) + "\ntime: "@
            + texts.seconds@ + "s\nsource: "@ + row.source@ + "\ndestination: "@ + row.destination@
            + "\nkind: "@ + row.kind.word() + "\n"@,
{
    reveal_strlit("\ntime: ");
    reveal_strlit("s\nsource: ");
    reveal_strlit("\ndestination: ");
    reveal_strlit("\nkind: ");
    reveal_strlit("\n");
    reveal_strlit("time: ");
    reveal_strlit("s");
    reveal_strlit("source: ");
    reveal_strlit("destination: ");
    reveal_strlit("kind: ");
    assert("\ntime: "@ =~= seq!['\n'] + "time: "@);
    assert("s\nsource: "@ =~= "s"@ + seq!['\n'] + "source: "@);
    assert("\ndestination: "@ =~= seq!['\n'] + "destination: "@);
    assert("\nkind: "@ =~= seq!['\n'] + "kind: "@);
    assert("\n"@ =~= seq!['\n']);
    let want = "# Frame "@ + decimal(row.index as nat) + "\ntime: "@ + texts.seconds@
        + "s\nsource: "@ + row.source@ + "\ndestination: "@ + row.destination@ + "\nkind: "@
        + row.kind.word() + "\n"@;
    assert(want =~= head_lines(row, texts));
}

/// A row is exported with its number, time, stations and mark, with its strength where it is
/// known, with its bytes, and with its values where there are any; an empty line ends it.
pub proof fn law_export_of_a_row(row: FrameRow, texts: RowTexts)
    ensures
        ({
            let strength = match texts.rssi {
                Some(r) => line("rssi_dbm: "@ + r@),
                None => Seq::<char>::empty(),
            };
            let values = if row.telemetry@.len() > 0 {
                line("telemetry:"@) + fields_export(
                    row.telemetry@,
                    texts.values@,
                    row.telemetry@.len(),
                )
            } else {
                Seq::<char>::empty()
            };
            row_export(row, texts) == head_lines(row, texts) + strength + line("raw: "@ + texts.raw@)
                + values + line(Seq::empty())
        }),
{
    lemma_head_lines(row, texts);
    reveal_strlit("\n");
    reveal_strlit("telemetry:");
    reveal_strlit("telemetry:\n");
    assert("\n"@ =~= seq!['\n']);
    assert("telemetry:\n"@ =~= line("telemetry:"@));
    assert(line(Seq::<char>::empty()) =~= "\n"@);
    let head = head_lines(row, texts);
    let strength = match texts.rssi {
        Some(r) => line("rssi_dbm: "@ + r@),
        None => Seq::<char>::empty(),
    };
    match texts.rssi {
        Some(r) => {
            assert(head + "rssi_dbm: "@ + r@ + "\n"@ =~= head + strength);
        },
        None => {
            assert(head + strength =~= head);
        },
    }
    let so_far = head + strength;
    assert(so_far + "raw: "@ + texts.raw@ + "\n"@ =~= so_far + line("raw: "@ + texts.raw@));
    let bytes = so_far + line("raw: "@ + texts.raw@);
    if row.telemetry@.len() > 0 {
        let f = fields_export(row.telemetry@, texts.values@, row.telemetry@.len());
        assert(bytes + "telemetry:\n"@ + f =~= bytes + (line("telemetry:"@) + f));
    } else {
        assert(bytes + Seq::<char>::empty() =~= bytes);
    }
}

/// Rows are exported one behind the other.
pub proof fn law_export_of_rows(rows: Seq<FrameRow>, texts: Seq<RowTexts>, n: nat)
    requires
        n < rows.len(),
        n < texts.len(),
    ensures
        rows_export(rows, texts, 0).len() == 0,
        rows_export(rows, texts, n + 1) == rows_export(rows, texts, n) + row_export(
            rows[n as int],
            texts[n as int],
        ),
{
}

/// The addressee of an SSDV packet is its image number in three figures and its packet
/// number in five.
pub proof fn law_address_of_an_ssdv_packet(image_id: u8, packet_id: u16)
    ensures
        ({
            let text = ssdv_destination(image_id, packet_id);
            &&& text.len() == 17
            &&& number(text.subrange(4, 7)) == image_id
            &&& number(text.subrange(12, 17)) == packet_id
        }),
        forall|c: Seq<char>| c.len() > 0 ==> #[trigger] ssdv_source(c) == c,
{
    reveal_strlit("IMG#");
    reveal_strlit("/PKT#");
    let a = padded(decimal(image_id as nat), '0', 3);
    let b = padded(decimal(packet_id as nat), '0', 5);
    lemma_short_decimal(image_id as nat);
    lemma_short_decimal(packet_id as nat);
    lemma_padded_number(image_id as nat, 3);
    lemma_padded_number(packet_id as nat, 5);
    let text = ssdv_destination(image_id, packet_id);
    assert(text.subrange(4, 7) =~= a);
    assert(text.subrange(12, 17) =~= b);
}

proof fn lemma_short_decimal(n: nat)
    requires
        n < 100000,
    ensures
        n < 1000 ==> decimal(n).len() <= 3,
        decimal(n).len() <= 5,
{
    reveal_with_fuel(decimal, 6);
}

proof fn lemma_padded_number(n: nat, width: nat)
    ensures
        number(padded(decimal(n), '0', width)) == n,
{
    let text = decimal(n);
    law_decimal_is_read_back(n);
    if text.len() < width {
        let zeros = Seq::new((width - text.len()) as nat, |i: int| '0');
        lemma_zero_figures(zeros);
        lemma_joined_figures(zeros, text);
        assert(padded(text, '0', width) == zeros + text);
    }
}

proof fn lemma_zero_figures(zeros: Seq<char>)
    requires
        forall|i: int| 0 <= i < zeros.len() ==> #[trigger] zeros[i] == '0',
    ensures
        number(zeros) == 0,
    decreases zeros.len(),
{
    if zeros.len() > 0 {
        lemma_zero_figures(zeros.drop_last());
    }
}

proof fn lemma_joined_figures(zeros: Seq<char>, text: Seq<char>)
    requires
        number(zeros) == 0,
    ensures
        number(zeros + text) == number(text),
    decreases text.len(),
{
    if text.len() == 0 {
        assert(zeros + text =~= zeros);
    } else {
        lemma_joined_figures(zeros, text.drop_last());
        assert((zeros + text).drop_last() =~= zeros + text.drop_last());
    }
}

/// A pending row holds what its frame shows, under its number, with the time and strength of
/// its arrival and without telemetry yet.
pub proof fn law_pending_rows(
    p: PendingRow,
    index: usize,
    time: Elapsed,
    rssi_dbm: Option<Real32>,
    m: RowModel,
)
    requires
        is_row(p, index, time, rssi_dbm, m),
    ensures
        p.row.index == index,
        p.row.time == time,
        p.row.rssi_dbm == rssi_dbm,
        p.row.telemetry@.len() == 0,
        p.row.source@ == m.source && p.row.destination@ == m.destination,
        p.row.kind == m.kind,
        p.row.raw@ == m.raw,
        p.schema_input is Some <==> m.schema_input is Some,
        p.schema_input matches Some(bytes) ==> m.schema_input == Some(bytes@),
{
}

/// An export begins with the satellite's name and number, where one is known, and with the
/// number of frames.
pub proof fn law_head_of_an_export(name: Seq<char>, norad_id: u32, frames: nat)
    ensures
        export_head(None, frames) == line("# OpenHoshimi frame export"@) + line(
            "# frames: "@ + decimal(frames),
        ) + line(Seq::empty()),
        export_head(Some((name, norad_id)), frames) == line("# OpenHoshimi frame export"@) + line(
            "# satellite: "@ + name,
        ) + line("# norad_id: "@ + decimal(norad_id as nat)) + line("# frames: "@ + decimal(frames))
            + line(Seq::empty()),
{
    reveal_strlit("# OpenHoshimi frame export\n");
    reveal_strlit("# OpenHoshimi frame export");
    reveal_strlit("\n# norad_id: ");
    reveal_strlit("# norad_id: ");
    reveal_strlit("\n");
    reveal_strlit("\n\n");
    let title = line("# OpenHoshimi frame export"@);
    assert("# OpenHoshimi frame export\n"@ =~= title);
    assert("\n# norad_id: "@ =~= seq!['\n'] + "# norad_id: "@);
    assert("\n\n"@ =~= seq!['\n', '\n']);
    assert(title + "# frames: "@ + decimal(frames) + "\n\n"@ =~= title + line(
        "# frames: "@ + decimal(frames),
    ) + line(Seq::empty()));
    let about = title + line("# satellite: "@ + name) + line(
        "# norad_id: "@ + decimal(norad_id as nat),
    );
    assert(title + "# satellite: "@ + name + "\n# norad_id: "@ + decimal(norad_id as nat) + "\n"@
        =~= about);
    assert(about + "# frames: "@ + decimal(frames) + "\n\n"@ =~= about + line(
        "# frames: "@ + decimal(frames),
    ) + line(Seq::empty()));
}

/// A satellite is known by the contents of its name and by its number.
pub proof fn law_satellite_by_contents(satellite: Option<(String, u32)>)
    ensures
        satellite is None <==> satellite_view(satellite) is None,
        satellite matches Some(s) ==> satellite_view(satellite) == Some((s.0@, s.1)),
{
}

} // verus!
