//! The words and the lists of the receiver window.
use openhoshimi::gallery::{
    grid_title, image_label, no_image_label, packet_grid, plan_picture, plan_save, save_label,
    shown_image, sstv_canvas, sstv_label, waiting_label, GridCell, PicturePlan,
};
use openhoshimi::image::{ImageDecoder, ImageStream};
use openhoshimi::labels::{
    audio_mode_enabled, audio_mode_label, clamp_selection, crc_segment, diagnostic_label,
    downlink_combo_label, downlink_input_kind_label, downlink_is_supported, first_supported,
    input_kind_label, is_sstv_downlink, keep_device, listed_satellites, play_label, sat_label,
    spectrum_label, spectrum_span_hz, status_tone, sync_segment, telemetry_title,
    truncate_left_with_ellipsis, Tone,
};
use openhoshimi::model::{TelemetryField, TelemetryValue, WarnLevel};
use openhoshimi::ordering::{group_fields, name_order};
use openhoshimi::receiver::{DiagnosticEntry, DiagnosticLevel, InputMode, PipelineStats};
use openhoshimi::render::Rgb;
use openhoshimi::satellite::{DownlinkDef, ImageDef, SatelliteDefinition, SatelliteHeader};
use openhoshimi::session::{AudioMode, InputKind};
use openhoshimi::sstv::{SstvImage, SstvMode};
use openhoshimi::words::{contains, hex_address, signed_string, trim_chars, zero_padded_decimal};

fn satellite(name: &str, aliases: &[&str], norad_id: u32) -> SatelliteDefinition {
    SatelliteDefinition {
        satellite: SatelliteHeader {
            name: name.to_string(),
            aliases: aliases.iter().map(|a| a.to_string()).collect(),
            norad_id,
        },
        downlinks: vec![],
        telemetry: vec![],
    }
}

fn downlink(image: Option<ImageDef>) -> DownlinkDef {
    DownlinkDef {
        label: "beacon".to_string(),
        freq_hz: 145_935_000,
        modulation: "DBPSK".to_string(),
        baudrate: 1200,
        framing: "AO40_FEC".to_string(),
        telemetry_schema: None,
        modem: None,
        line_coding: None,
        descrambler: None,
        framer: None,
        fec: None,
        codec: None,
        image,
    }
}

fn stats(sync: Option<(u64, u64)>, crc: Option<(u64, u64)>) -> PipelineStats {
    PipelineStats {
        total_bits: 0,
        sync_locked: sync.map(|s| s.0),
        sync_attempts: sync.map(|s| s.1),
        frames_emitted: 0,
        crc_ok: crc.map(|c| c.0),
        crc_fail: crc.map(|c| c.1),
    }
}

#[test]
fn satellites_are_filtered_by_name_and_number() {
    let list = vec![
        satellite("AO-73", &["FUNcube-1"], 39444),
        satellite("ISS", &[], 25544),
        satellite("RS44", &[], 44909),
    ];
    assert_eq!(listed_satellites(&list, ""), [0, 1, 2]);
    assert_eq!(listed_satellites(&list, "ao"), [0]);
    assert_eq!(listed_satellites(&list, "44"), [0, 1, 2]);
    assert_eq!(listed_satellites(&list, "s4"), [2]);
    assert!(listed_satellites(&list, " ").is_empty());
    assert_eq!(sat_label(&list[0]), "AO-73 (FUNcube-1)");
    assert_eq!(sat_label(&list[1]), "ISS");
}

#[test]
fn names_are_ordered_and_equal_ones_keep_their_places() {
    let names: Vec<String> =
        ["b", "a", "", "ab", "a", "B"].iter().map(|s| s.to_string()).collect();
    assert_eq!(name_order(&names), [2, 5, 1, 4, 3, 0]);
    let mut sorted: Vec<usize> = (0..names.len()).collect();
    sorted.sort_by(|x, y| names[*x].cmp(&names[*y]));
    assert_eq!(name_order(&names), sorted);
}

#[test]
fn fields_are_grouped() {
    let field = |group: &str| TelemetryField {
        key: "k".to_string(),
        group: group.to_string(),
        value: TelemetryValue::Int(0),
        unit: None,
        warn: WarnLevel::Warn,
    };
    let groups = group_fields(&vec![field("rf"), field("eps"), field("rf"), field("obc")]);
    let shape: Vec<(&str, &[usize])> =
        groups.iter().map(|g| (g.name.as_str(), &g.fields[..])).collect();
    assert_eq!(shape, [("eps", &[1][..]), ("obc", &[3][..]), ("rf", &[0, 2][..])]);
    assert!(group_fields(&vec![]).is_empty());
}

#[test]
fn selections_stay_in_range() {
    assert_eq!((clamp_selection(5, 3), clamp_selection(1, 3), clamp_selection(4, 0)), (2, 1, 0));
    assert_eq!(first_supported(&vec![false, true, true]), 1);
    assert_eq!(first_supported(&vec![false]), 0);
    let present = vec!["a".to_string(), "b".to_string()];
    assert_eq!(keep_device(&Some("b".to_string()), &present).as_deref(), Some("b"));
    assert_eq!(keep_device(&Some("c".to_string()), &present), None);
    assert_eq!(keep_device(&None, &present), None);
}

#[test]
fn downlinks_are_named() {
    let plain = downlink(None);
    let sstv = downlink(Some(ImageDef::Sstv {}));
    assert!(!is_sstv_downlink(&plain) && is_sstv_downlink(&sstv));
    assert!(downlink_is_supported(&sstv, None, false));
    assert!(!downlink_is_supported(&plain, None, true));
    assert!(!downlink_is_supported(&plain, Some(InputKind::Iq), false));
    assert!(downlink_is_supported(&plain, Some(InputKind::Iq), true));
    assert_eq!(
        downlink_combo_label(&plain, "145.935", true),
        "145.935 MHz DBPSK 1200bd AO40_FEC"
    );
    assert_eq!(
        downlink_combo_label(&plain, "145.935", false),
        "145.935 MHz DBPSK 1200bd AO40_FEC unsupported"
    );
    assert_eq!(
        spectrum_label(Some(&sstv), "145.935", None),
        "145.935 MHz | DBPSK 1200bd | AO40_FEC | audio (SSTV)"
    );
    assert_eq!(spectrum_label(None, "-", None), "no downlink selected");
    assert_eq!(downlink_input_kind_label(&plain, Some(InputKind::FmAudio)), "FM audio");
    assert_eq!(input_kind_label(None), "unsupported");
    assert_eq!(audio_mode_label(AudioMode::Ssb), "SSB");
    assert!(audio_mode_enabled(Some(InputKind::FmAudio)) && !audio_mode_enabled(None));
    assert_eq!(spectrum_span_hz(InputMode::WavFile, 48_000), 24_000);
    assert_eq!(spectrum_span_hz(InputMode::WavFile, 8_000), 6_000);
    assert_eq!(spectrum_span_hz(InputMode::Soundcard, 48_000), 6_000);
}

#[test]
fn status_bar_speaks() {
    assert_eq!(play_label(1, 3), "play 1 / 3 (33%)");
    assert_eq!(play_label(5, 0), "play 5 / 0 (0%)");
    assert_eq!(play_label(7, 3), "play 7 / 3 (100%)");
    assert_eq!(status_tone("IQ alignment FAILED: x"), Tone::Bad);
    assert_eq!(status_tone("missing WAV input path"), Tone::Bad);
    assert_eq!(status_tone("RX started"), Tone::Muted);
    assert_eq!(sync_segment(&stats(Some((0, 9)), None)), Some(("sync: 0/9".to_string(), Tone::Muted)));
    assert_eq!(sync_segment(&stats(Some((2, 9)), None)), Some(("sync: 2/9".to_string(), Tone::Good)));
    assert_eq!(sync_segment(&stats(None, None)), None);
    assert_eq!(crc_segment(&stats(None, Some((0, 0)))), Some(("crc: 0/0".to_string(), Tone::Muted)));
    assert_eq!(crc_segment(&stats(None, Some((1, 1)))), Some(("crc: 1/2".to_string(), Tone::Good)));
    assert_eq!(crc_segment(&stats(None, Some((1, 2)))), Some(("crc: 1/3".to_string(), Tone::Bad)));
    let entry = DiagnosticEntry { level: DiagnosticLevel::Warn, text: "hm".to_string() };
    assert_eq!(diagnostic_label(&entry), "[warn] hm");
    assert_eq!(telemetry_title(Some("AO-73"), Some(4)), "Telemetry: AO-73 frame #4");
    assert_eq!(telemetry_title(None, None), "Telemetry: -");
}

#[test]
fn long_values_are_cut_at_their_start() {
    assert_eq!(truncate_left_with_ellipsis("abcdef", 6), "abcdef");
    assert_eq!(truncate_left_with_ellipsis("abcdef", 4), "\u{2026}def");
    assert_eq!(truncate_left_with_ellipsis("abcdef", 1), "\u{2026}");
    assert_eq!(truncate_left_with_ellipsis("abcdef", 0), "\u{2026}");
}

fn image(image_idx: u32, received: u64, total_chunks: u32) -> ImageStream {
    ImageStream {
        image_idx,
        bytes: vec![0; 10],
        received_chunks: vec![received],
        total_chunks,
        received_count: received.count_ones(),
        last_offset: 0,
        last_chunk_idx: 2,
    }
}

#[test]
fn chosen_image_is_shown() {
    let images = vec![image(3, 0, 0), image(5, 0, 0)];
    assert_eq!(shown_image(&images, 5), Some(1));
    assert_eq!(shown_image(&images, 9), Some(0));
    assert_eq!(shown_image(&vec![], 0), None);
    assert_eq!(plan_save(&images, 5, ImageDecoder::Raw), Ok((1, ImageDecoder::Raw)));
    assert_eq!(
        plan_save(&vec![], 5, ImageDecoder::Raw),
        Err("no image stream available".to_string())
    );
    assert_eq!(save_label(ImageDecoder::Jpeg), "Save JPEG");
}

#[test]
fn pictures_are_drawn_when_they_have_to_be() {
    assert_eq!(
        plan_picture(Some(1), true, Some(1), false),
        PicturePlan { discard: false, draw: false }
    );
    assert_eq!(
        plan_picture(Some(1), true, Some(2), false),
        PicturePlan { discard: true, draw: true }
    );
    assert_eq!(
        plan_picture(Some(1), true, Some(1), true),
        PicturePlan { discard: false, draw: true }
    );
    assert_eq!(plan_picture(None, false, None, false), PicturePlan { discard: false, draw: true });
}

#[test]
fn grid_marks_chunks() {
    let s = image(0, 0b1101, 4);
    assert_eq!(
        packet_grid(&s),
        [GridCell::Received, GridCell::Missing, GridCell::Latest, GridCell::Received]
    );
    assert_eq!(grid_title(Some(&s)), "packets  3/4");
    assert_eq!(grid_title(Some(&image(0, 0, 0))), "0 chunks");
    assert_eq!(grid_title(None), "no chunks");
    assert_eq!(packet_grid(&image(0, 0, 3)), vec![GridCell::Missing; 3]);
    assert_eq!(waiting_label(None), "waiting for image chunks\u{2026}");
    assert_eq!(waiting_label(Some(&s)), "image #0: 3/4 chunks; decoding\u{2026}");
    assert_eq!(image_label(&s, "75.0"), "image #0: 3/4 chunks (75.0%) | 10 bytes");
    assert_eq!(no_image_label(0, 0), "no image chunks received yet");
    assert_eq!(
        no_image_label(2, 1),
        "no image chunks yet | header miss=2 hit=1 (check [downlink.image] header_signature)"
    );
}

#[test]
fn sstv_images_are_laid_out() {
    let mut picture = SstvImage {
        mode: SstvMode::Robot36,
        width: 1,
        height: 2,
        pixels: vec![1, 2, 3, 4, 5, 6, 7],
    };
    let canvas = sstv_canvas(&picture).expect("canvas");
    assert_eq!(canvas.pixels, [Rgb { r: 1, g: 2, b: 3 }, Rgb { r: 4, g: 5, b: 6 }]);
    picture.pixels.truncate(5);
    assert!(sstv_canvas(&picture).is_none());
    assert_eq!(sstv_label(&Some(picture)), "SSTV Robot36: 1x2");
    assert_eq!(sstv_label(&None), "SSTV: no image decoded yet");
}

#[test]
fn texts_are_searched_and_padded() {
    assert!(contains("abcabd", "abd") && contains("x", "") && !contains("ab", "abc"));
    assert_eq!(trim_chars(&[' ', 'a', ' ', '\t']), ['a']);
    assert_eq!(zero_padded_decimal(7, 3), "007");
    assert_eq!(zero_padded_decimal(12345, 3), "12345");
    assert_eq!(hex_address(0xAB), "00AB");
    assert_eq!(hex_address(0x12_3456), "123456");
    assert_eq!(signed_string(-5), "-5");
}
