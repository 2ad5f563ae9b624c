//! JPEG streams of SSDV packets.
use openhoshimi::jpeg_huffman::{
    jpeg_dht_encode, jpeg_dht_lookup, jpeg_encode_int, jpeg_int, STD_DHT00, STD_DHT01, STD_DHT10,
    STD_DHT11,
};
use openhoshimi::jpeg_writer::BitSink;
use openhoshimi::render::{decode_jpeg_bytes, Rgb};
use openhoshimi::ssdv::{SsdvPacket, SsdvPacketKind};
use openhoshimi::ssdv_jpeg::{scale_dqt, JpegBuilder, STD_DQT0, STD_DQT1};

#[test]
fn jpeg_encode_int_round_trip() {
    for v in [-127i32, -1, 0, 1, 7, 64, 1023] {
        let (bits, width) = jpeg_encode_int(v);
        let back = jpeg_int(bits & ((1i32 << width.max(1)) - 1), width);
        assert_eq!(back, v, "value {v}");
    }
}

#[test]
fn dht_lookup_round_trip_dht00() {
    // Symbol 0x05 should round-trip through encode/decode on the
    // DC luma table.
    let (bits, width) = jpeg_dht_encode(&STD_DHT00, 0x05).expect("encode");
    let (sym, w) = jpeg_dht_lookup(&STD_DHT00, bits as u32, width).expect("decode");
    assert_eq!(sym, 0x05);
    assert_eq!(w, width);
}

#[test]
fn empty_builder_produces_empty_jpeg() {
    let jb = JpegBuilder::new();
    assert!(jb.finish().is_empty());
}

#[test]
fn quantisation_tables_scale_with_quality() {
    // The first byte is the table's number. Quality 4 keeps the table as it is;
    // quality 0 multiplies by fifty, up to 255.
    let same = scale_dqt(&STD_DQT0, 4);
    assert_eq!(same, STD_DQT0);
    let coarse = scale_dqt(&STD_DQT1, 0);
    assert_eq!(coarse[0], STD_DQT1[0]);
    assert!(coarse[1..].iter().all(|q| *q == 255));
    let fine = scale_dqt(&STD_DQT0, 7);
    assert!(fine[1..].iter().all(|q| *q == 1));
}

#[test]
fn written_bits_survive_stuffing() {
    let mut sink = BitSink::new();
    sink.outbits(0b101, 3);
    sink.outbits(0b1_1111, 5);
    sink.outbits(0xFF, 8);
    sink.outbits(0b01, 2);
    sink.outbits_sync();
    assert_eq!(sink.into_bytes(), [0b1011_1111, 0xFF, 0x00, 0b0111_1111]);
}

/// Collects bits of a packet payload, high bit first.
struct Payload {
    bits: Vec<bool>,
}

impl Payload {
    fn put(&mut self, value: u32, width: u8) {
        for k in (0..width).rev() {
            self.bits.push(value >> k & 1 == 1);
        }
    }

    fn block(&mut self, dc: i32, dc_table: &[u8], ac_table: &[u8]) {
        let (bits, width) = jpeg_encode_int(dc);
        let (code, len) = jpeg_dht_encode(dc_table, width).expect("DC code");
        self.put(code as u32, len);
        self.put(bits as u32, width);
        let (eob, len) = jpeg_dht_encode(ac_table, 0).expect("end of block");
        self.put(eob as u32, len);
    }

    fn mcu(&mut self, luma: i32) {
        self.block(luma, &STD_DHT00, &STD_DHT10);
        self.block(0, &STD_DHT01, &STD_DHT11);
        self.block(0, &STD_DHT01, &STD_DHT11);
    }

    fn bytes(&self) -> Vec<u8> {
        self.bits
            .chunks(8)
            .map(|c| c.iter().enumerate().fold(0, |b, (i, on)| b | (*on as u8) << (7 - i)))
            .collect()
    }
}

fn square_packet(packet_id: u16, mcu_id: u16, payload: Vec<u8>) -> SsdvPacket {
    let mut raw = vec![0u8; 256];
    raw[9] = 1;
    raw[10] = 1;
    SsdvPacket {
        kind: SsdvPacketKind::NoFec,
        callsign: "TEST".to_string(),
        image_id: 0,
        packet_id,
        width: 16,
        height: 16,
        eoi: false,
        quality: 4,
        mcu_mode: 3,
        mcu_offset: 0,
        mcu_id,
        mcu_count: 4,
        payload,
        rs_errors: None,
        crc_ok: true,
        raw,
    }
}

#[test]
fn coefficients_pass_through_to_a_readable_jpeg() {
    // Four squares of eight by eight: the first value is absolute, the others are
    // differences.
    let mut payload = Payload { bits: Vec::new() };
    payload.mcu(-20);
    payload.mcu(0);
    payload.mcu(10);
    payload.mcu(0);
    let mut builder = JpegBuilder::new();
    builder.feed_packet(&square_packet(0, 0, payload.bytes()));
    let jpeg = builder.finish();
    assert_eq!(jpeg[..2], [0xFF, 0xD8]);
    assert_eq!(jpeg[jpeg.len() - 2..], [0xFF, 0xD9]);
    let canvas = decode_jpeg_bytes(&jpeg).expect("readable JPEG");
    assert_eq!((canvas.width, canvas.height), (16, 16));
    // A step of one is two levels: the table's first entry is 16, spread over 8.
    assert_eq!(canvas.pixels[0], Rgb { r: 88, g: 88, b: 88 });
    assert_eq!(canvas.pixels[8], Rgb { r: 88, g: 88, b: 88 });
    assert_eq!(canvas.pixels[8 * 16], Rgb { r: 108, g: 108, b: 108 });
    assert_eq!(canvas.pixels[8 * 16 + 8], Rgb { r: 108, g: 108, b: 108 });
}

#[test]
fn missing_squares_are_filled_and_absolute_values_follow() {
    let mut head = Payload { bits: Vec::new() };
    head.mcu(-20);
    let mut tail = Payload { bits: Vec::new() };
    tail.mcu(30);
    let mut builder = JpegBuilder::new();
    builder.feed_packet(&square_packet(0, 0, head.bytes()));
    // Packet 1 with squares 1 and 2 is lost; packet 2 starts anew with square 3.
    builder.feed_packet(&square_packet(2, 3, tail.bytes()));
    // A packet that comes too late changes nothing.
    builder.feed_packet(&square_packet(1, 1, vec![0; 8]));
    let canvas = decode_jpeg_bytes(&builder.finish()).expect("readable JPEG");
    assert_eq!(canvas.pixels[0], Rgb { r: 88, g: 88, b: 88 });
    assert_eq!(canvas.pixels[8], Rgb { r: 88, g: 88, b: 88 });
    assert_eq!(canvas.pixels[8 * 16 + 8], Rgb { r: 188, g: 188, b: 188 });

    // An image that is finished early is complete.
    let mut builder = JpegBuilder::new();
    builder.feed_packet(&square_packet(0, 0, head.bytes()));
    let canvas = decode_jpeg_bytes(&builder.finish()).expect("readable JPEG");
    assert_eq!(canvas.pixels[16 * 16 - 1], Rgb { r: 88, g: 88, b: 88 });
}

#[test]
fn bits_that_fit_no_code_end_only_their_packet() {
    let mut tail = Payload { bits: Vec::new() };
    tail.mcu(30);
    let last = square_packet(1, 3, tail.bytes());
    let mut a = JpegBuilder::new();
    a.feed_packet(&square_packet(0, 0, vec![0xFF; 205]));
    a.feed_packet(&last);
    let mut b = JpegBuilder::new();
    b.feed_packet(&last);
    let file = a.finish();
    assert_eq!(file, b.finish());
    let canvas = decode_jpeg_bytes(&file).expect("readable JPEG");
    assert_eq!(canvas.pixels[8 * 16 + 8], Rgb { r: 188, g: 188, b: 188 });
    // The headers, and no marker in the scan.
    assert_eq!(file[623 - 14..623 - 10], [0xFF, 0xDA, 0x00, 0x0C]);
    let scan = &file[623..file.len() - 2];
    assert!(scan.windows(2).all(|w| w[0] != 0xFF || w[1] == 0));
}

#[test]
fn a_part_of_a_code_decides_nothing() {
    for table in [&STD_DHT00[..], &STD_DHT01[..], &STD_DHT10[..], &STD_DHT11[..]] {
        for symbol in &table[17..] {
            let (code, width) = jpeg_dht_encode(table, *symbol).expect("code");
            for l in 0..width {
                assert_eq!(jpeg_dht_lookup(table, code as u32 >> (width - l), l), None);
            }
        }
    }
}

#[test]
fn packets_behind_an_unreadable_one_change_nothing_by_it() {
    let mut tail = Payload { bits: Vec::new() };
    tail.mcu(30);
    let unreadable = square_packet(0, 0, vec![0xFF; 205]);
    // A packet that starts no square, and one that starts where the unreadable did.
    for next in [square_packet(1, 0xFFFF, tail.bytes()), square_packet(1, 0, tail.bytes())] {
        let mut a = JpegBuilder::new();
        a.feed_packet(&unreadable);
        a.feed_packet(&next);
        let mut b = JpegBuilder::new();
        b.feed_packet(&next);
        let last = square_packet(2, 3, tail.bytes());
        a.feed_packet(&last);
        b.feed_packet(&last);
        assert_eq!(a.finish(), b.finish());
    }
    let next = square_packet(1, 0xFFFF, tail.bytes());
    let mut a = JpegBuilder::new();
    a.feed_packet(&unreadable);
    a.feed_packet(&next);
    let mut b = JpegBuilder::new();
    b.feed_packet(&next);
    assert_eq!(a.finish(), b.finish());
    // An unreadable packet ahead of the one expected.
    let mut a = JpegBuilder::new();
    a.feed_packet(&square_packet(1, 1, vec![0xFF; 205]));
    a.feed_packet(&square_packet(2, 3, tail.bytes()));
    let mut b = JpegBuilder::new();
    b.feed_packet(&square_packet(2, 3, tail.bytes()));
    assert_eq!(a.finish(), b.finish());
}
