//! Rows of the frame table.
use std::collections::VecDeque;

use openhoshimi::ax25::{Ax25Frame, Callsign};
use openhoshimi::geoscan::GeoscanFrame;
use openhoshimi::model::{Frame, FrameType, TelemetryField, TelemetryValue, WarnLevel};
use openhoshimi::rows::{
    checked_image_tap, decoded_frame_row, export_file_name, export_text, format_telemetry,
    frame_info_preview, frame_row, hex_dump, image_tap, spaced_hex, visible_rows, DecodedFrame,
    Elapsed, FrameKind, FrameRow, RowTexts,
};
use openhoshimi::satellite::{Real32, Real64};
use openhoshimi::ssdv::{SsdvPacket, SsdvPacketKind};

const NOW: Elapsed = Elapsed { secs: 1, nanos: 500_000_000 };

fn call(text: &str) -> Callsign {
    Callsign { call: text.to_string(), ssid: 0, repeated: false }
}

fn ax25(info: &[u8]) -> DecodedFrame {
    DecodedFrame::Ax25(Ax25Frame {
        destination: call("CQ"),
        source: call("AB1CD"),
        digipeaters: vec![],
        control: 3,
        pid: Some(0xf0),
        info: info.to_vec(),
    })
}

fn geoscan(crc_ok: bool) -> DecodedFrame {
    DecodedFrame::Geoscan(GeoscanFrame {
        payload: vec![1, 2, 3],
        crc_ok,
        crc_received: 0,
        crc_expected: 0,
    })
}

fn ssdv(callsign: &str, crc_ok: bool) -> DecodedFrame {
    DecodedFrame::Ssdv(SsdvPacket {
        kind: SsdvPacketKind::NoFec,
        callsign: callsign.to_string(),
        image_id: 7,
        packet_id: 42,
        width: 16,
        height: 16,
        eoi: false,
        quality: 4,
        mcu_mode: 0,
        mcu_offset: 0,
        mcu_id: 0,
        mcu_count: 4,
        payload: vec![9, 9],
        rs_errors: None,
        crc_ok,
        raw: vec![0x55, 0x67, 9, 9],
    })
}

fn frame(rssi_dbm: Option<Real32>, raw: &[u8]) -> Frame {
    Frame { satellite_id: 1, rssi_dbm, raw: raw.to_vec(), frame_type: FrameType::Unknown }
}

fn row(index: usize, raw: &[u8]) -> FrameRow {
    FrameRow {
        index,
        time: NOW,
        source: "A".to_string(),
        destination: "B".to_string(),
        kind: FrameKind::Tlm,
        rssi_dbm: None,
        raw: raw.to_vec(),
        telemetry: vec![],
    }
}

fn field(value: TelemetryValue, unit: Option<&str>) -> TelemetryField {
    TelemetryField {
        key: "volts".to_string(),
        group: "eps".to_string(),
        value,
        unit: unit.map(|u| u.to_string()),
        warn: WarnLevel::Normal,
    }
}

#[test]
fn ax25_rows_tell_whole_orbit_data() {
    let p = decoded_frame_row(4, NOW, &ax25(b"xx wOd yy"));
    assert_eq!(p.row.index, 4);
    assert_eq!((p.row.source.as_str(), p.row.destination.as_str()), ("AB1CD", "CQ"));
    assert_eq!(p.row.kind, FrameKind::Wod);
    assert_eq!(p.schema_input.as_deref(), Some(&b"xx wOd yy"[..]));
    assert_eq!(decoded_frame_row(1, NOW, &ax25(b"hello")).row.kind, FrameKind::Tlm);
    assert_eq!(decoded_frame_row(1, NOW, &ax25(b"wo")).row.kind, FrameKind::Tlm);
    assert_eq!(decoded_frame_row(1, NOW, &ax25(b"")).row.kind, FrameKind::Fault);
}

#[test]
fn ax100_checksum_keeps_telemetry_away() {
    let bad = DecodedFrame::Ax100 { payload: vec![1], crc_ok: Some(false) };
    let p = decoded_frame_row(1, NOW, &bad);
    assert_eq!((p.row.kind, p.schema_input), (FrameKind::Fault, None));
    assert_eq!(p.row.source, "AX100");
    let p = frame_row(1, NOW, &frame(None, &[]), &Ok(bad)).expect("row");
    assert_eq!((p.row.kind, p.schema_input), (FrameKind::Tlm, None));
    assert_eq!(p.row.source, "RAW");
    let good = DecodedFrame::Ax100 { payload: vec![1], crc_ok: None };
    let p = decoded_frame_row(1, NOW, &good);
    assert_eq!((p.row.kind, p.schema_input), (FrameKind::Tlm, Some(vec![1])));
}

#[test]
fn ssdv_rows_name_image_and_packet() {
    let p = decoded_frame_row(1, NOW, &ssdv("", true));
    assert_eq!(p.row.source, "SSDV");
    assert_eq!(p.row.destination, "IMG#007/PKT#00042");
    assert_eq!(p.row.raw, [9, 9]);
    assert!(p.schema_input.is_none());
    let p = frame_row(1, NOW, &frame(None, &[]), &Ok(ssdv("OH2ABC", false))).expect("row");
    assert_eq!(p.row.source, "OH2ABC");
    assert_eq!(p.row.kind, FrameKind::Fault);
    assert_eq!(p.row.raw, [0x55, 0x67, 9, 9]);
}

#[test]
fn raw_rows_keep_bytes_where_they_are_known() {
    let p = decoded_frame_row(1, NOW, &DecodedFrame::Raw { raw_len: 3 });
    assert_eq!(p.row.raw, [0, 0, 0]);
    assert!(p.schema_input.is_none());
    let rssi = Some(Real32 { bits: (-3.5f32).to_bits() });
    let p = frame_row(1, NOW, &frame(rssi, &[4, 5]), &Ok(DecodedFrame::Raw { raw_len: 2 }))
        .expect("row");
    assert_eq!(p.row.raw, [4, 5]);
    assert_eq!(p.schema_input, Some(vec![4, 5]));
    assert_eq!(p.row.rssi_dbm, rssi);
    let err = frame_row(1, NOW, &frame(None, &[]), &Err("bad".to_string())).unwrap_err();
    assert_eq!(err, "bad");
    let p = decoded_frame_row(1, NOW, &DecodedFrame::Ao40 { payload: vec![1] });
    assert_eq!((p.row.source.as_str(), p.row.destination.as_str()), ("AO40", "FEC"));
}

#[test]
fn image_bytes_are_tapped() {
    assert_eq!(image_tap(&geoscan(false)), Some(vec![1, 2, 3]));
    assert_eq!(image_tap(&ssdv("", false)), Some(vec![0x55, 0x67, 9, 9]));
    assert_eq!(image_tap(&ax25(b"x")), None);
    assert_eq!(checked_image_tap(&Ok(geoscan(false))), (Some(false), None));
    assert_eq!(checked_image_tap(&Ok(geoscan(true))), (Some(true), Some(vec![1, 2, 3])));
    assert_eq!(checked_image_tap(&Ok(ax25(b"x"))), (None, None));
    assert_eq!(checked_image_tap(&Err("bad".to_string())), (None, None));
}

#[test]
fn filter_looks_at_bytes_and_numbers() {
    let rows = VecDeque::from([row(1, &[0xAB, 0xCD]), row(27, &[0x01]), row(3, &[0x27])]);
    assert_eq!(visible_rows(&rows, "  "), [0, 1, 2]);
    assert_eq!(visible_rows(&rows, " ABcd "), [0]);
    assert_eq!(visible_rows(&rows, "27"), [1, 2]);
    assert_eq!(visible_rows(&rows, "bc"), [0]);
    assert!(visible_rows(&rows, "zz").is_empty());
}

#[test]
fn telemetry_values_have_their_texts() {
    let float = TelemetryValue::Float(Real64 { bits: 1.5f64.to_bits() });
    assert_eq!(format_telemetry(&field(float, Some("V")), "1.50"), "1.50 V");
    assert_eq!(format_telemetry(&field(TelemetryValue::Int(-12), None), ""), "-12");
    assert_eq!(
        format_telemetry(&field(TelemetryValue::Int(i64::MIN), Some("")), ""),
        "-9223372036854775808"
    );
    assert_eq!(format_telemetry(&field(TelemetryValue::Bool(true), None), ""), "true");
    assert_eq!(
        format_telemetry(&field(TelemetryValue::Bytes(vec![1]), None), "01"),
        "01"
    );
}

#[test]
fn preview_prefers_telemetry() {
    assert_eq!(frame_info_preview(&row(1, &[]), ""), "-");
    assert_eq!(frame_info_preview(&row(1, &[0x0a, 0xff]), ""), "0A FF");
    let long: Vec<u8> = (0..17).collect();
    assert_eq!(
        frame_info_preview(&row(1, &long), ""),
        "00 01 02 03 04 05 06 07 08 09 0A 0B 0C 0D 0E 0F .."
    );
    let mut with = row(1, &[1]);
    with.telemetry.push(field(TelemetryValue::Int(5), Some("C")));
    assert_eq!(frame_info_preview(&with, ""), "eps.volts = 5 C");
}

#[test]
fn dump_lines_are_aligned() {
    let raw: Vec<u8> = (0x3E..0x50).collect();
    let lines = hex_dump(&raw);
    assert_eq!(lines.len(), 2);
    assert_eq!(
        lines[0],
        "0000   3E 3F 40 41 42 43 44 45 46 47 48 49 4A 4B 4C 4D   >?@ABCDEFGHIJKLM"
    );
    assert_eq!(lines[1], format!("0010   {:<47}   NO", "4E 4F"));
    assert!(hex_dump(&vec![]).is_empty());
    assert_eq!(hex_dump(&vec![0x00, 0x7f, 0x20])[0], format!("0000   {:<47}   .. ", "00 7F 20"));
    let far = hex_dump(&vec![0; 0x1_0010]);
    assert!(far[0x1000].starts_with("10000   00"));
    assert_eq!(spaced_hex(&[0xFE]), "FE");
}

#[test]
fn export_lists_every_row() {
    let mut with = row(2, &[1]);
    with.telemetry.push(field(TelemetryValue::Bool(false), None));
    with.kind = FrameKind::Fault;
    with.rssi_dbm = Some(Real32 { bits: (-3.5f32).to_bits() });
    let rows = VecDeque::from([row(1, &[]), with]);
    let texts = vec![
        RowTexts { seconds: "1.500".to_string(), rssi: None, raw: "".to_string(), values: vec![] },
        RowTexts {
            seconds: "2.000".to_string(),
            rssi: Some("-3.5".to_string()),
            raw: "01".to_string(),
            values: vec!["".to_string()],
        },
    ];
    let text = export_text(&Some(("AO-73".to_string(), 39444)), &rows, &texts);
    assert_eq!(
        text,
        "# OpenHoshimi frame export\n# satellite: AO-73\n# norad_id: 39444\n# frames: 2\n\n\
         # Frame 1\ntime: 1.500s\nsource: A\ndestination: B\nkind: Tlm\nraw: \n\n\
         # Frame 2\ntime: 2.000s\nsource: A\ndestination: B\nkind: Err\nrssi_dbm: -3.5\nraw: 01\n\
         telemetry:\n  eps.volts: false\n\n"
    );
    assert_eq!(
        export_text(&None, &VecDeque::new(), &vec![]),
        "# OpenHoshimi frame export\n# frames: 0\n\n"
    );
    assert_eq!(export_file_name(Some("AO 73/B")), "openhoshimi_AO_73_B.txt");
    assert_eq!(export_file_name(None), "openhoshimi_frames.txt");
    assert_eq!(FrameKind::Wod.label(), "Wod");
}
