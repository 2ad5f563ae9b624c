//! What a viewer reads from the headers of a re-encoded SSDV image.
use vstd::prelude::*;
use crate::jpeg_frames::{
    buffer_unit, component_h, component_id, component_v, countable, frame_components,
    frame_height, frame_whole, frame_width, has_length, is_side_segment, lemma_next_marker,
    next_marker, overflows_from, scan_components, scan_id, scan_whole, segment_end,
};
use crate::jpeg_huffman::{table_bytes, STD_DHT00, STD_DHT01, STD_DHT10, STD_DHT11};
use crate::ssdv::PacketModel;
use crate::ssdv_jpeg::{
    frame_header, headers, jpeg_of, law_image_stays, scaled_table, segment, table_for,
    APP0_DATA, SOS_DATA, STD_DQT0, STD_DQT1,
};
use crate::ssdv_jpeg_laws::{fed_all, law_finished_file};

verus! {

/// The position of marker number `n` of a file: each is looked for behind the segment of
/// the one before it, the first behind the start-of-image marker.
pub open spec fn marker_number(file: Seq<u8>, n: nat) -> Option<int>
    decreases n,
{
    if n == 0 {
        next_marker(file, 2)
    } else {
        match marker_number(file, (n - 1) as nat) {
            Some(q) => next_marker(file, segment_end(file, q)),
            None => None,
        }
    }
}

/// Marker number `n` is `m`.
pub open spec fn has_marker(file: Seq<u8>, n: nat, m: u8) -> bool {
    marker_number(file, n) matches Some(q) && 0 <= q < file.len() && file[q] == m
}

/// The data of segment number `n`.
pub open spec fn segment_data(file: Seq<u8>, n: nat) -> Seq<u8> {
    let q = marker_number(file, n).unwrap();
    file.subrange(q + 3, segment_end(file, q))
}

/// The percentage that a quality level stands for.
pub open spec fn percentage(quality: u8) -> int {
    if quality == 0 {
        5000
    } else if quality == 1 {
        357
    } else if quality == 2 {
        172
    } else if quality == 3 {
        116
    } else if quality == 4 {
        100
    } else if quality == 5 {
        58
    } else if quality == 6 {
        28
    } else {
        0
    }
}

/// The entry is `percent` of `base`, rounded, or the nearest number that a byte can hold
/// and that is not zero.
pub open spec fn is_percentage(entry: u8, base: u8, percent: int) -> bool {
    &&& entry >= 1
    &&& 100 * entry <= base * percent + 50 || entry == 1
    &&& base * percent + 50 < 100 * (entry + 1) || entry == 255
}

/// A quantisation segment holds this table under this number, each entry at this
/// percentage.
pub open spec fn quantises(data: Seq<u8>, number: u8, base: Seq<u8>, percent: int) -> bool {
    &&& data.len() == 65
    &&& data[0] == number
    &&& forall|i: int| 1 <= i < 65 ==> is_percentage(#[trigger] data[i], base[i], percent)
}

/// The width of the luma component of an MCU, in blocks.
pub open spec fn luma_columns(mcu_mode: u8) -> int {
    if mcu_mode == 1 || mcu_mode == 3 {
        1
    } else {
        2
    }
}

/// The height of the luma component of an MCU, in blocks.
pub open spec fn luma_rows(mcu_mode: u8) -> int {
    if mcu_mode == 2 || mcu_mode == 3 {
        1
    } else {
        2
    }
}

/// The frame header at `f`: eight bits per sample, these lines and columns, and three
/// components, of which the first is sampled as the mode says and the others once.
pub open spec fn frames(file: Seq<u8>, f: int, p: PacketModel) -> bool {
    &&& frame_whole(file, f)
    &&& file[f + 3] == 8
    &&& frame_height(file, f) == p.height
    &&& frame_width(file, f) == p.width
    &&& frame_components(file, f) == 3
    &&& component_id(file, f, 0) == 1
    &&& component_id(file, f, 1) == 2
    &&& component_id(file, f, 2) == 3
    &&& component_h(file, f, 0) == luma_columns(p.mcu_mode)
    &&& component_v(file, f, 0) == luma_rows(p.mcu_mode)
    &&& component_h(file, f, 1) == 1
    &&& component_v(file, f, 1) == 1
    &&& component_h(file, f, 2) == 1
    &&& component_v(file, f, 2) == 1
    &&& file[f + 11] == 0
    &&& file[f + 14] == 1
    &&& file[f + 17] == 1
}

/// The Huffman table of class `class` and number `number` is in one of the segments.
pub open spec fn brings_table(file: Seq<u8>, n: nat, class: int, number: int, t: Seq<u8>) -> bool {
    &&& has_marker(file, n, 0xC4)
    &&& segment_data(file, n) == t
    &&& t.len() >= 17
    &&& t[0] == 16 * class + number
}

/// The scan header at `s`: all three components, all coefficients at once, and for each
/// component the numbers of its tables, the high half for DC and the low for AC.
pub open spec fn scans(file: Seq<u8>, s: int) -> bool {
    &&& scan_whole(file, s)
    &&& scan_components(file, s) == 3
    &&& scan_id(file, s, 0) == 1
    &&& scan_id(file, s, 1) == 2
    &&& scan_id(file, s, 2) == 3
    &&& file[s + 5] == 0x00
    &&& file[s + 7] == 0x11
    &&& file[s + 9] == 0x11
    &&& file[s + 10] == 0
    &&& file[s + 11] == 63
    &&& file[s + 12] == 0
    &&& segment_end(file, s) == s + 13
}

proof fn lemma_frame(file: Seq<u8>, p: PacketModel)
    requires
        file.len() >= 623,
        file.subrange(158, 177) == segment(0xC0, frame_header(p.width, p.height, p.mcu_mode)),
    ensures
        next_marker(file, 158) == Some(159int),
        segment_end(file, 159) == 177,
        file[159] == 0xC0,
        frames(file, 159, p),
{
    let piece = file.subrange(158, 177);
    assert forall|i: int| 158 <= i < 177 implies #[trigger] file[i] == piece[i - 158] by {}
    assert(file[158] == 0xFF && file[159] == 0xC0 && file[160] == 0 && file[161] == 17);
    assert(file[162] == 8 && file[167] == 3);
    assert(file[163] == (p.height / 256) as u8 && file[164] == (p.height % 256) as u8);
    assert(file[165] == (p.width / 256) as u8 && file[166] == (p.width % 256) as u8);
    assert(file[168] == 1 && file[170] == 0);
    assert(file[171] == 2 && file[172] == 0x11 && file[173] == 1);
    assert(file[174] == 3 && file[175] == 0x11 && file[176] == 1);
}

proof fn lemma_scan(file: Seq<u8>)
    requires
        file.len() >= 623,
        file.subrange(609, 623) == segment(0xDA, SOS_DATA@),
    ensures
        next_marker(file, 609) == Some(610int),
        file[610] == 0xDA,
        scans(file, 610),
{
    let piece = file.subrange(609, 623);
    assert forall|i: int| 609 <= i < 623 implies #[trigger] file[i] == piece[i - 609] by {}
    assert(SOS_DATA@ =~= seq![
        0x03u8, 0x01u8, 0x00u8, 0x02u8, 0x11u8, 0x03u8, 0x11u8, 0x00u8, 0x3Fu8, 0x00u8,
    ]);
    assert(file[609] == 0xFF && file[610] == 0xDA && file[611] == 0 && file[612] == 12);
    assert(file[613] == 3 && file[614] == 1 && file[615] == 0 && file[616] == 2);
    assert(file[617] == 0x11 && file[618] == 3 && file[619] == 0x11 && file[620] == 0);
    assert(file[621] == 63 && file[622] == 0);
}

/// A segment that stands at `at` is found there, with its data and its end.
proof fn lemma_segment(file: Seq<u8>, at: int, marker: u8, data: Seq<u8>)
    requires
        0 <= at,
        at + 4 + data.len() <= file.len(),
        0 < marker < 0xFF,
        data.len() < 65000,
        file.subrange(at, at + 4 + data.len()) == segment(marker, data),
    ensures
        next_marker(file, at) == Some(at + 1),
        file[at + 1] == marker,
        segment_end(file, at + 1) == at + 4 + data.len(),
        file.subrange(at + 4, at + 4 + data.len()) == data,
{
    let piece = file.subrange(at, at + 4 + data.len());
    assert forall|i: int| 0 <= i < piece.len() implies #[trigger] piece[i] == file[at + i] by {}
    assert(piece[0] == 0xFF && piece[1] == marker);
    let len = data.len() + 2;
    assert(piece[2] == (len / 256) as u8 && piece[3] == (len % 256) as u8);
    let found = file.subrange(at + 4, at + 4 + data.len());
    assert forall|i: int| 0 <= i < data.len() implies found[i] == data[i] by {
        assert(piece[4 + i] == file[at + (4 + i)]);
    }
    assert(found =~= data);
}

/// Where the parts of the headers stand.
proof fn lemma_layout(file: Seq<u8>, p: PacketModel)
    requires
        file.len() >= 623,
        file.take(623) == headers(p.width, p.height, p.mcu_mode, p.quality),
    ensures
        file.subrange(2, 20) == segment(0xE0, APP0_DATA@),
        file.subrange(20, 89) == segment(0xDB, scaled_table(STD_DQT0@, p.quality)),
        file.subrange(89, 158) == segment(0xDB, scaled_table(STD_DQT1@, p.quality)),
        file.subrange(158, 177) == segment(0xC0, frame_header(p.width, p.height, p.mcu_mode)),
        file.subrange(177, 210) == segment(0xC4, STD_DHT00@),
        file.subrange(210, 393) == segment(0xC4, STD_DHT10@),
        file.subrange(393, 426) == segment(0xC4, STD_DHT01@),
        file.subrange(426, 609) == segment(0xC4, STD_DHT11@),
        file.subrange(609, 623) == segment(0xDA, SOS_DATA@),
{
    reveal(headers);
    let h = file.take(623);
    let a = seq![0xFFu8, 0xD8u8];
    let b = a + segment(0xE0, APP0_DATA@);
    let c = b + segment(0xDB, scaled_table(STD_DQT0@, p.quality));
    let d = c + segment(0xDB, scaled_table(STD_DQT1@, p.quality));
    let e = d + segment(0xC0, frame_header(p.width, p.height, p.mcu_mode));
    let f = e + segment(0xC4, STD_DHT00@);
    let g = f + segment(0xC4, STD_DHT10@);
    let i = g + segment(0xC4, STD_DHT01@);
    let j = i + segment(0xC4, STD_DHT11@);
    assert(h == j + segment(0xDA, SOS_DATA@));
    assert(j.len() == 609);
    assert(h.skip(609) =~= segment(0xDA, SOS_DATA@));
    assert(file.subrange(609, 623) =~= h.skip(609));
    assert(h.take(609) =~= j);
    assert(file.take(609) =~= h.take(609));
    assert(file.subrange(426, 609) =~= segment(0xC4, STD_DHT11@)) by {
        assert(file.subrange(426, 609) =~= file.take(609).skip(426));
    }
    assert(file.take(426) =~= i) by {
        assert(file.take(426) =~= file.take(609).take(426));
    }
    assert(file.subrange(393, 426) =~= segment(0xC4, STD_DHT01@)) by {
        assert(file.subrange(393, 426) =~= file.take(426).skip(393));
    }
    assert(file.take(393) =~= g) by {
        assert(file.take(393) =~= file.take(426).take(393));
    }
    assert(file.subrange(210, 393) =~= segment(0xC4, STD_DHT10@)) by {
        assert(file.subrange(210, 393) =~= file.take(393).skip(210));
    }
    assert(file.take(210) =~= f) by {
        assert(file.take(210) =~= file.take(393).take(210));
    }
    assert(file.subrange(177, 210) =~= segment(0xC4, STD_DHT00@)) by {
        assert(file.subrange(177, 210) =~= file.take(210).skip(177));
    }
    assert(file.take(177) =~= e) by {
        assert(file.take(177) =~= file.take(210).take(177));
    }
    assert(file.subrange(158, 177) =~= segment(
        0xC0,
        frame_header(p.width, p.height, p.mcu_mode),
    )) by {
        assert(file.subrange(158, 177) =~= file.take(177).skip(158));
    }
    assert(file.take(158) =~= d) by {
        assert(file.take(158) =~= file.take(177).take(158));
    }
    assert(file.subrange(89, 158) =~= segment(0xDB, scaled_table(STD_DQT1@, p.quality))) by {
        assert(file.subrange(89, 158) =~= file.take(158).skip(89));
    }
    assert(file.take(89) =~= c) by {
        assert(file.take(89) =~= file.take(158).take(89));
    }
    assert(file.subrange(20, 89) =~= segment(0xDB, scaled_table(STD_DQT0@, p.quality))) by {
        assert(file.subrange(20, 89) =~= file.take(89).skip(20));
    }
    assert(file.take(20) =~= b) by {
        assert(file.take(20) =~= file.take(89).take(20));
    }
    assert(file.subrange(2, 20) =~= segment(0xE0, APP0_DATA@)) by {
        assert(file.subrange(2, 20) =~= file.take(20).skip(2));
    }
}

proof fn lemma_quantises(base: Seq<u8>, number: u8, quality: u8)
    requires
        base.len() == 65,
        base[0] == number,
    ensures
        quantises(scaled_table(base, quality), number, base, percentage(quality)),
{
    let data = scaled_table(base, quality);
    assert forall|i: int| 1 <= i < 65 implies is_percentage(
        #[trigger] data[i],
        base[i],
        percentage(quality),
    ) by {
        let v = base[i] as int * percentage(quality);
        assert(v >= 0) by (nonlinear_arith)
            requires
                v == base[i] as int * percentage(quality),
                percentage(quality) >= 0,
        ;
    }
}

proof fn lemma_markers(file: Seq<u8>, p: PacketModel)
    requires
        file.len() >= 623,
        file.take(623) == headers(p.width, p.height, p.mcu_mode, p.quality),
    ensures
        marker_number(file, 0) == Some(3int),
        marker_number(file, 1) == Some(21int),
        marker_number(file, 2) == Some(90int),
        marker_number(file, 3) == Some(159int),
        marker_number(file, 4) == Some(178int),
        marker_number(file, 5) == Some(211int),
        marker_number(file, 6) == Some(394int),
        marker_number(file, 7) == Some(427int),
        marker_number(file, 8) == Some(610int),
        file[3] == 0xE0,
        file[21] == 0xDB,
        file[90] == 0xDB,
        file[178] == 0xC4,
        file[211] == 0xC4,
        file[394] == 0xC4,
        file[427] == 0xC4,
        segment_data(file, 1) == scaled_table(STD_DQT0@, p.quality),
        segment_data(file, 2) == scaled_table(STD_DQT1@, p.quality),
        segment_data(file, 4) == STD_DHT00@,
        segment_data(file, 5) == STD_DHT10@,
        segment_data(file, 6) == STD_DHT01@,
        segment_data(file, 7) == STD_DHT11@,
{
    lemma_layout(file, p);
    lemma_segment(file, 2, 0xE0, APP0_DATA@);
    lemma_segment(file, 20, 0xDB, scaled_table(STD_DQT0@, p.quality));
    lemma_segment(file, 89, 0xDB, scaled_table(STD_DQT1@, p.quality));
    lemma_frame(file, p);
    lemma_segment(file, 177, 0xC4, STD_DHT00@);
    lemma_segment(file, 210, 0xC4, STD_DHT10@);
    lemma_segment(file, 393, 0xC4, STD_DHT01@);
    lemma_segment(file, 426, 0xC4, STD_DHT11@);
    lemma_scan(file);
    reveal_with_fuel(marker_number, 10);
}

/// A viewer finds in a finished file what the first packet says, whatever packets came:
/// the size of the picture, lines before columns; the sampling of its components; and
/// the two quantisation tables at the percentage of the quality. The Huffman tables that
/// it is told to use for a component are those with which the coefficients of that
/// component were written.
pub proof fn law_viewer_reads_the_headers(packets: Seq<PacketModel>)
    requires
        packets.len() > 0,
    ensures
        ({
            let file = jpeg_of(fed_all(packets));
            let p = packets[0];
            &&& has_marker(file, 0, 0xE0)
            &&& has_marker(file, 1, 0xDB)
            &&& quantises(segment_data(file, 1), 0, STD_DQT0@, percentage(p.quality))
            &&& has_marker(file, 2, 0xDB)
            &&& quantises(segment_data(file, 2), 1, STD_DQT1@, percentage(p.quality))
            &&& has_marker(file, 3, 0xC0)
            &&& frames(file, marker_number(file, 3)->Some_0, p)
            &&& brings_table(file, 4, 0, 0, table_bytes(table_for(false, false)))
            &&& brings_table(file, 5, 1, 0, table_bytes(table_for(true, false)))
            &&& brings_table(file, 6, 0, 1, table_bytes(table_for(false, true)))
            &&& brings_table(file, 7, 1, 1, table_bytes(table_for(true, true)))
            &&& has_marker(file, 8, 0xDA)
            &&& scans(file, marker_number(file, 8)->Some_0)
        }),
{
    law_finished_file(packets);
    let file = jpeg_of(fed_all(packets));
    let p = packets[0];
    lemma_layout(file, p);
    lemma_markers(file, p);
    lemma_frame(file, p);
    lemma_scan(file);
    reveal(table_bytes);
    lemma_quantises(STD_DQT0@, 0, p.quality);
    lemma_quantises(STD_DQT1@, 1, p.quality);
}

proof fn lemma_image(packets: Seq<PacketModel>)
    requires
        packets.len() > 0,
    ensures
        ({
            let s = fed_all(packets);
            let p = packets[0];
            &&& s.started
            &&& s.ycparts == crate::ssdv_jpeg::luma_parts(p.mcu_mode)
            &&& s.mcu_count == crate::ssdv_jpeg::image_mcus(p.raw[9], p.raw[10], p.mcu_mode)
        }),
    decreases packets.len(),
{
    let before = packets.drop_last();
    if before.len() > 0 {
        lemma_image(before);
        assert(before[0] == packets[0]);
    }
    law_image_stays(fed_all(before), packets.last());
}

/// The scan data fits the frame header: an MCU has as many luma blocks as the sampling
/// of the luma component says, and there are as many MCUs as cover a picture whose sides
/// are the sixteen-pixel units of the first packet.
pub proof fn law_scan_covers_the_frame(packets: Seq<PacketModel>)
    requires
        packets.len() > 0,
        packets[0].mcu_mode < 4,
        packets[0].width == 16 * packets[0].raw[9],
        packets[0].height == 16 * packets[0].raw[10],
    ensures
        ({
            let s = fed_all(packets);
            let p = packets[0];
            let f = marker_number(jpeg_of(s), 3)->Some_0;
            let h = component_h(jpeg_of(s), f, 0);
            let v = component_v(jpeg_of(s), f, 0);
            &&& s.ycparts == h * v
            &&& s.mcu_count == (p.width as int / (8 * h)) * (p.height as int / (8 * v))
        }),
{
    lemma_image(packets);
    lemma_sampling(packets);
    let p = packets[0];
    let a = p.raw[9] as int;
    let b = p.raw[10] as int;
    lemma_units(p.mcu_mode, a, b);
}

proof fn lemma_units(mcu_mode: u8, a: int, b: int)
    requires
        mcu_mode < 4,
        0 <= a,
        0 <= b,
    ensures
        ({
            let h = luma_columns(mcu_mode);
            let v = luma_rows(mcu_mode);
            let n = ((16 * a) / (8 * h)) * ((16 * b) / (8 * v));
            &&& mcu_mode == 0 ==> h * v == 4 && n == a * b
            &&& mcu_mode == 1 ==> h * v == 2 && n == 2 * (a * b)
            &&& mcu_mode == 2 ==> h * v == 2 && n == 2 * (a * b)
            &&& mcu_mode == 3 ==> h * v == 1 && n == 4 * (a * b)
        }),
{
    assert((16 * a) / 8 == 2 * a && (16 * a) / 16 == a);
    assert((16 * b) / 8 == 2 * b && (16 * b) / 16 == b);
    assert((2 * a) * b == 2 * (a * b)) by (nonlinear_arith);
    assert(a * (2 * b) == 2 * (a * b)) by (nonlinear_arith);
    assert((2 * a) * (2 * b) == 4 * (a * b)) by (nonlinear_arith);
}

proof fn lemma_sampling(packets: Seq<PacketModel>)
    requires
        packets.len() > 0,
    ensures
        ({
            let file = jpeg_of(fed_all(packets));
            let f = marker_number(file, 3)->Some_0;
            &&& component_h(file, f, 0) == luma_columns(packets[0].mcu_mode)
            &&& component_v(file, f, 0) == luma_rows(packets[0].mcu_mode)
        }),
{
    law_viewer_reads_the_headers(packets);
}

/// The frame header whose marker is at `q` is of a picture with sides that can be counted
/// and buffers that can be addressed.
pub open spec fn ordinary_frame(bytes: Seq<u8>, q: int) -> bool {
    let height = 256 * bytes[q + 4] + bytes[q + 5];
    let width = 256 * bytes[q + 6] + bytes[q + 7];
    &&& height <= 65528
    &&& width <= 65528
    &&& 32 * ((width + 32) * (height + 32)) <= usize::MAX
}

proof fn lemma_ordinary(bytes: Seq<u8>, pos: int, known: Seq<bool>)
    requires
        0 <= pos,
        forall|q: int|
            0 < q && q + 8 < bytes.len() && bytes[q - 1] == 0xFF && 0xC0 <= bytes[q] <= 0xC3
                ==> #[trigger] ordinary_frame(bytes, q),
    ensures
        !overflows_from(bytes, pos, None, known),
    decreases (if pos < bytes.len() { bytes.len() - pos } else { 0 }),
{
    lemma_next_marker(bytes, pos);
    if let Some(q) = next_marker(bytes, pos) {
        lemma_marker_byte(bytes, pos);
        let m = bytes[q];
        if 0xD0 <= m <= 0xD7 {
            lemma_ordinary(bytes, q + 1, known);
        } else if has_length(bytes, q) && is_side_segment(m) {
            lemma_ordinary(bytes, segment_end(bytes, q), known);
        } else if 0xC0 <= m <= 0xC3 && frame_whole(bytes, q) && frame_components(bytes, q) <= 4 {
            assert(ordinary_frame(bytes, q));
            let w = frame_width(bytes, q) + 32;
            let h = frame_height(bytes, q) + 32;
            let u = buffer_unit(bytes, q);
            assert(0 <= u <= 16);
            assert(2 * u * (w * h) <= 32 * (w * h)) by (nonlinear_arith)
                requires
                    0 <= u <= 16,
                    w >= 0,
                    h >= 0,
            ;
        }
    }
}

proof fn lemma_marker_byte(bytes: Seq<u8>, pos: int)
    requires
        0 <= pos,
    ensures
        next_marker(bytes, pos) matches Some(q) ==> pos < q < bytes.len() && bytes[q - 1] == 0xFF,
    decreases bytes.len() - pos,
{
    if pos + 1 < bytes.len() && !(bytes[pos] == 0xFF && bytes[pos + 1] != 0x00 && bytes[pos + 1]
        != 0xFF) {
        lemma_marker_byte(bytes, pos + 1);
    }
}

/// No file is kept from the decoder whose frames all have sides of at most 65528 and need
/// no more memory than there are addresses.
pub proof fn law_ordinary_files_are_decoded(bytes: Seq<u8>)
    requires
        forall|q: int|
            0 < q && q + 8 < bytes.len() && bytes[q - 1] == 0xFF && 0xC0 <= bytes[q] <= 0xC3
                ==> #[trigger] ordinary_frame(bytes, q),
    ensures
        countable(bytes),
{
    lemma_ordinary(bytes, 2, Seq::empty());
}

} // verus!
