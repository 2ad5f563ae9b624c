//! Reassembling images.
use openhoshimi::image::{
    build, parse_hex, read_uint, ImageReassembler, PixelFormat, SsdvImageReassembler,
};
use openhoshimi::rs8;
use openhoshimi::satellite::{
    ByteOrderDef, ImageDecoderDef, ImageDef, ImageField, PixelFormatDef,
};
use openhoshimi::ssdv::{crc32, encode_callsign, SSDV_PKT_SIZE};

fn def_jpeg() -> ImageDef {
    ImageDef::Geoscan {
        header_signature: "02 00 3E 05 09".to_string(),
        offset_field: ImageField {
            at: 5,
            len: 2,
            endian: ByteOrderDef::Le,
        },
        chunk_at: 8,
        chunk_bytes: 56,
        decoder: ImageDecoderDef::Jpeg,
        width: 320,
        height: 240,
        pixel_format: PixelFormatDef::Gray8,
    }
}

fn def_raw() -> ImageDef {
    ImageDef::Geoscan {
        header_signature: "AA".to_string(),
        offset_field: ImageField {
            at: 1,
            len: 2,
            endian: ByteOrderDef::Be,
        },
        chunk_at: 3,
        chunk_bytes: 8,
        decoder: ImageDecoderDef::Raw,
        width: 8,
        height: 8,
        pixel_format: PixelFormatDef::Gray8,
    }
}

fn frame_jpeg(offset: u16, first_two: [u8; 2], fill: u8) -> Vec<u8> {
    let mut buf = vec![0u8; 64];
    buf[0..5].copy_from_slice(&[0x02, 0x00, 0x3E, 0x05, 0x09]);
    buf[5..7].copy_from_slice(&offset.to_le_bytes());
    buf[7] = 0x06;
    buf[8] = first_two[0];
    buf[9] = first_two[1];
    for b in &mut buf[10..64] {
        *b = fill;
    }
    buf
}

#[test]
fn ingest_writes_chunk_at_offset() {
    let mut r = build(&def_jpeg()).unwrap();
    let update = r.ingest(&frame_jpeg(0, [0xFF, 0xD8], 0xAA)).unwrap();
    assert_eq!(update.image_idx, 0);
    assert_eq!(update.offset, 0);
    assert_eq!(update.bytes_written, 56);
    assert!(update.fresh);
    // The very first SOI chunk also "starts a new image" under the
    // JPEG-mode rule that requires every JPEG stream to begin with
    // FF D8 — there's no prior image, but this is the anchor.
    assert!(update.started_new_image);
    let snap = r.snapshot();
    assert_eq!(snap.images.len(), 1);
    assert_eq!(snap.images[0].received_count, 1);
    assert_eq!(snap.images[0].bytes[..2], [0xFF, 0xD8]);
}

#[test]
fn header_mismatch_returns_none() {
    let mut r = build(&def_jpeg()).unwrap();
    let mut bad = frame_jpeg(0, [0xFF, 0xD8], 0xAA);
    bad[0] = 0xFF;
    assert!(r.ingest(&bad).is_none());
}

#[test]
fn out_of_order_arrival_grows_buffer() {
    let mut r = build(&def_jpeg()).unwrap();
    // First chunk arrives at offset 0 with the JPEG SOI; subsequent
    // chunks arrive out of order at higher offsets. They must all
    // accumulate in the same image because none of them is a new
    // SOI at offset 0.
    let _ = r.ingest(&frame_jpeg(0, [0xFF, 0xD8], 0xAA)).unwrap();
    let _ = r.ingest(&frame_jpeg(112, [0xCC, 0xCC], 0xCC)).unwrap();
    let _ = r.ingest(&frame_jpeg(56, [0xBB, 0xBB], 0xBB)).unwrap();
    let snap = r.snapshot();
    assert_eq!(snap.images.len(), 1);
    assert_eq!(snap.images[0].received_count, 3);
    assert_eq!(snap.images[0].bytes[0], 0xFF);
    assert_eq!(snap.images[0].bytes[56], 0xBB);
    assert_eq!(snap.images[0].bytes[112], 0xCC);
}

#[test]
fn jpeg_soi_at_offset_zero_starts_new_image() {
    let mut r = build(&def_jpeg()).unwrap();
    let _ = r.ingest(&frame_jpeg(0, [0xFF, 0xD8], 0xAA)).unwrap();
    let _ = r.ingest(&frame_jpeg(56, [0xBB, 0xBB], 0xBB)).unwrap();
    let update = r.ingest(&frame_jpeg(0, [0xFF, 0xD8], 0xCC)).unwrap();
    assert!(update.started_new_image);
    assert_eq!(update.image_idx, 1);
    let snap = r.snapshot();
    assert_eq!(snap.images.len(), 2);
    assert_eq!(snap.images[0].received_count, 2);
    assert_eq!(snap.images[1].received_count, 1);
}

#[test]
fn duplicate_offset_zero_without_soi_does_not_split() {
    let mut r = build(&def_jpeg()).unwrap();
    let _ = r.ingest(&frame_jpeg(0, [0xFF, 0xD8], 0xAA)).unwrap();
    let _ = r.ingest(&frame_jpeg(56, [0xBB, 0xBB], 0xBB)).unwrap();
    // A retransmission of offset 0 that does NOT start with FF D8
    // (e.g. wrong-PN9 corrupted payload) must not split images.
    let update = r.ingest(&frame_jpeg(0, [0x00, 0x00], 0xAB)).unwrap();
    assert!(!update.started_new_image);
    assert_eq!(update.image_idx, 0);
    assert_eq!(r.snapshot().images.len(), 1);
}

#[test]
fn raw_decoder_offset_zero_after_data_splits() {
    let mut r = build(&def_raw()).unwrap();
    let mut buf = vec![0xAA, 0x00, 0x00];
    buf.extend_from_slice(&[1u8; 8]);
    let _ = r.ingest(&buf).unwrap();
    // Different chunk at offset 0 -> new image.
    let mut buf2 = vec![0xAA, 0x00, 0x00];
    buf2.extend_from_slice(&[2u8; 8]);
    let update = r.ingest(&buf2).unwrap();
    assert!(update.started_new_image);
    assert_eq!(r.snapshot().images.len(), 2);
}

#[test]
fn reset_clears_images() {
    let mut r = build(&def_jpeg()).unwrap();
    let _ = r.ingest(&frame_jpeg(0, [0xFF, 0xD8], 0xAA)).unwrap();
    r.reset();
    assert!(r.snapshot().images.is_empty());
}

#[test]
fn jpeg_chunks_before_first_soi_are_dropped() {
    // In a real recording, listening picks up mid-image bytes long
    // before the first SOI arrives. Without an SOI anchor a JPEG
    // bytestream has no decoder entry point, so those chunks must
    // be dropped — otherwise they accumulate as a phantom image #0.
    let mut r = build(&def_jpeg()).unwrap();
    assert!(r.ingest(&frame_jpeg(56, [0xBB, 0xBB], 0xBB)).is_none());
    assert!(r.ingest(&frame_jpeg(112, [0xCC, 0xCC], 0xCC)).is_none());
    assert!(r.snapshot().images.is_empty());
    // The first SOI then anchors image #0 and subsequent chunks
    // accumulate into it normally.
    let update = r.ingest(&frame_jpeg(0, [0xFF, 0xD8], 0xAA)).unwrap();
    assert!(update.started_new_image);
    assert_eq!(update.image_idx, 0);
    let _ = r.ingest(&frame_jpeg(56, [0xBB, 0xBB], 0xBB)).unwrap();
    assert_eq!(r.snapshot().images.len(), 1);
    assert_eq!(r.snapshot().images[0].received_count, 2);
}

fn build_packet(image_id: u8, packet_id: u16, payload_seed: u8) -> [u8; SSDV_PKT_SIZE] {
    let mut pkt = [0u8; SSDV_PKT_SIZE];
    pkt[0] = 0x55;
    pkt[1] = 0x66;
    let cs = encode_callsign("HSCAT1");
    pkt[2..6].copy_from_slice(&cs.to_be_bytes());
    pkt[6] = image_id;
    pkt[7..9].copy_from_slice(&packet_id.to_be_bytes());
    pkt[9] = 20; // 320 px
    pkt[10] = 15; // 240 px
                  // flags byte: ((quality ^ 4) << 3) | (eoi << 2) | mcu_mode.
                  // For quality=4, mcu_mode=0, eoi=0 this is zero.
    pkt[11] = 0;
    pkt[12] = 0;
    pkt[13..15].copy_from_slice(&packet_id.to_be_bytes());
    // Payload: 205 bytes of pseudo-random JPEG-ish bytes that
    // never contain 0xFF (which would trip JPEG marker logic).
    for (i, b) in pkt[15..15 + 205].iter_mut().enumerate() {
        *b = payload_seed.wrapping_add(i as u8) & 0x7F;
    }
    // CRC32 over [type..payload_end-1]
    let crcdata_len = 0x0F + 205 - 1;
    let crc = crc32(&pkt[1..1 + crcdata_len]);
    let i = 1 + crcdata_len;
    pkt[i..i + 4].copy_from_slice(&crc.to_be_bytes());
    // RS parity
    let mut block = [0u8; 255];
    block[..223].copy_from_slice(&pkt[1..1 + 223]);
    rs8::encode(&mut block).expect("rs encode");
    pkt[1 + 223..1 + 255].copy_from_slice(&block[223..255]);
    pkt
}

#[test]
fn assembles_complete_jpeg_with_three_packets() {
    let mut r = SsdvImageReassembler::new(None);
    for pid in 0..3u16 {
        let pkt = build_packet(7, pid, 0x11_u8.wrapping_add(pid as u8 * 5));
        r.ingest(&pkt).expect("ingest");
    }
    let snap = r.snapshot();
    assert_eq!(snap.images.len(), 1);
    let img = &snap.images[0];
    assert!(!img.bytes.is_empty());
    assert_eq!(&img.bytes[..2], &[0xFF, 0xD8]);
    assert_eq!(&img.bytes[img.bytes.len() - 2..], &[0xFF, 0xD9]);
    assert_eq!(img.received_count, 3);
    assert_eq!(img.total_chunks, 3);
}

#[test]
fn missing_middle_packet_still_produces_jpeg() {
    let mut r = SsdvImageReassembler::new(None);
    for pid in [0u16, 2u16] {
        let pkt = build_packet(9, pid, 0x33);
        r.ingest(&pkt).expect("ingest");
    }
    let snap = r.snapshot();
    let img = &snap.images[0];
    assert!(!img.bytes.is_empty());
    assert_eq!(&img.bytes[..2], &[0xFF, 0xD8]);
    assert_eq!(&img.bytes[img.bytes.len() - 2..], &[0xFF, 0xD9]);
    assert_eq!(img.received_count, 2);
    assert_eq!(img.total_chunks, 3);
}

#[test]
fn separate_image_ids_become_separate_streams() {
    let mut r = SsdvImageReassembler::new(None);
    let _ = r.ingest(&build_packet(1, 0, 0xAA));
    let _ = r.ingest(&build_packet(2, 0, 0xBB));
    let snap = r.snapshot();
    assert_eq!(snap.images.len(), 2);
}

#[test]
fn callsign_filter_rejects_mismatch() {
    let mut r = SsdvImageReassembler::new(Some("OTHER1".to_string()));
    let pkt = build_packet(5, 0, 0x55);
    assert!(r.ingest(&pkt).is_none());
    assert!(r.snapshot().images.is_empty());
}

#[test]
fn hex_strings_are_parsed() {
    assert_eq!(parse_hex("02 00\n3e 05"), Ok(vec![0x02, 0x00, 0x3E, 0x05]));
    assert_eq!(parse_hex("  "), Err("hex string is empty".to_string()));
    assert!(parse_hex("abc").is_err());
    assert!(parse_hex("zz").is_err());
    assert_eq!(
        parse_hex("+5"),
        Err("bad hex at offset 0: invalid digit found in string".to_string())
    );
}

#[test]
fn fields_are_read_in_both_orders() {
    let le = ImageField { at: 1, len: 2, endian: ByteOrderDef::Le };
    let be = ImageField { at: 1, len: 2, endian: ByteOrderDef::Be };
    assert_eq!(read_uint(&[9, 1, 2], &le), Some(0x0201));
    assert_eq!(read_uint(&[9, 1, 2], &be), Some(0x0102));
    assert_eq!(read_uint(&[9, 1], &le), None);
}

#[test]
fn faulty_definitions_are_refused() {
    let with = |chunk_bytes: usize, len: usize, at: usize| ImageDef::Geoscan {
        header_signature: "AA".to_string(),
        offset_field: ImageField { at, len, endian: ByteOrderDef::Be },
        chunk_at: 3,
        chunk_bytes,
        decoder: ImageDecoderDef::Raw,
        width: 8,
        height: 8,
        pixel_format: PixelFormatDef::Rgb888,
    };
    assert_eq!(build(&with(0, 2, 1)).err().as_deref(), Some("image.chunk_bytes must be > 0"));
    assert_eq!(
        build(&with(8, 5, 1)).err().as_deref(),
        Some("image.offset_field.len = 5 out of range 1..=4")
    );
    assert_eq!(
        build(&with(8, 2, 2)).err().as_deref(),
        Some("image.offset_field overlaps the chunk")
    );
    let mut signed = with(8, 1, 0);
    if let ImageDef::Geoscan { header_signature, .. } = &mut signed {
        *header_signature = "AA BB CC DD".to_string();
    }
    assert_eq!(
        build(&signed).err().as_deref(),
        Some("image.header_signature overlaps the chunk")
    );
    assert!(build(&ImageDef::Sstv {}).is_err());
    assert!(build(&ImageDef::Ssdv { callsign: None }).is_ok());
}

#[test]
fn pixel_formats_have_their_sizes() {
    assert_eq!(PixelFormat::Gray8.bytes_per_pixel(), 1);
    assert_eq!(PixelFormat::Rgb565.bytes_per_pixel(), 2);
    assert_eq!(PixelFormat::from(PixelFormatDef::Rgb888).bytes_per_pixel(), 3);
}

#[test]
fn order_of_chunks_does_not_matter() {
    let mut a = build(&def_jpeg()).unwrap();
    let mut b = build(&def_jpeg()).unwrap();
    let start = frame_jpeg(0, [0xFF, 0xD8], 0xAA);
    let x = frame_jpeg(56, [1, 2], 3);
    let y = frame_jpeg(112, [4, 5], 6);
    for f in [&start, &x, &y] {
        a.ingest(f);
    }
    for f in [&start, &y, &x] {
        b.ingest(f);
    }
    assert_eq!(a.snapshot().images[0].bytes, b.snapshot().images[0].bytes);
    assert!((0..3).all(|i| a.snapshot().images[0].chunk_received(i)));
    assert!(!a.snapshot().images[0].chunk_received(3));
}

#[test]
fn every_stream_has_the_slots_of_its_bytes() {
    let mut r = build(&def_raw()).unwrap();
    assert!(r.ingest(&[0xAB, 0, 0, 1, 2, 3, 4, 5, 6, 7, 8]).is_none());
    assert!(r.snapshot().images.is_empty());
    let update = r.ingest(&[0xAA, 0, 12, 1, 2, 3, 4, 5, 6, 7, 8]).expect("chunk");
    assert_eq!((update.chunk_idx, update.offset, update.fresh), (1, 12, true));
    let image = &r.snapshot().images[0];
    assert_eq!(image.bytes, [vec![0; 12], vec![1, 2, 3, 4, 5, 6, 7, 8]].concat());
    assert_eq!((image.total_chunks, image.received_count), (3, 1));
    assert!(image.chunk_received(1) && !image.chunk_received(0) && !image.chunk_received(2));
}

#[test]
fn order_of_packets_does_not_matter() {
    let packets: Vec<_> = [3u16, 0, 2].iter().map(|id| build_packet(4, *id, 0x21)).collect();
    let mut a = SsdvImageReassembler::new(None);
    let mut b = SsdvImageReassembler::new(None);
    for p in [&packets[0], &packets[1], &packets[2]] {
        a.ingest(p).expect("packet");
    }
    b.ingest(&build_packet(5, 0, 0x44)).expect("packet of another image");
    for p in [&packets[2], &packets[0], &packets[1], &packets[0]] {
        b.ingest(p).expect("packet");
    }
    let (x, y) = (a.snapshot(), b.snapshot());
    assert_eq!((x.images.len(), y.images.len()), (1, 2));
    assert_eq!(x.images[0].bytes, y.images[1].bytes);
    assert_eq!(x.images[0].received_chunks, y.images[1].received_chunks);
    assert_eq!((x.images[0].total_chunks, x.images[0].received_count), (4, 3));
    assert_eq!((y.images[1].total_chunks, y.images[1].received_count), (4, 3));
}
