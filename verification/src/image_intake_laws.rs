//! Which payloads an image reassembler takes, and what it makes of them.
use vstd::prelude::*;
use crate::bitmap::bit_at;
use crate::image::{
    accepted, bad_pair, big_endian, builds, fed_packets, field_value, geoscan_step, hex_pair,
    hex_result, image_fault, image_with_id, images_sound, overlaid, packets_jpeg, shows, shows_ssdv,
    slots_for, ssdv_step, stream_sound, visible, GeoscanLayout, ImageDecoder, ImageModel,
    ImageStream, PixelFormat, Reassembler, SsdvImageModel,
};
use crate::image_laws::{
    came_for, collected, ids_seen, law_one_stream_per_image, law_packets_are_counted, numbers,
    ssdv_run,
};
use crate::satellite::{ByteOrderDef, ImageDecoderDef, ImageDef, ImageField, PixelFormatDef};
use crate::ssdv::{ssdv_decoded, PacketModel};
use crate::ssdv_jpeg::jpeg_of;
use crate::ssdv_jpeg_laws::fed_all;
use crate::text::hex_value;
use crate::word_laws::{blank, lemma_blank};

verus! {

/// The number in `len` bytes, one to four, from `at` on.
pub open spec fn number_in(bytes: Seq<u8>, at: int, len: int, high_first: bool) -> int {
    if len == 1 {
        bytes[at] as int
    } else if len == 2 {
        if high_first {
            256 * bytes[at] + bytes[at + 1]
        } else {
            256 * bytes[at + 1] + bytes[at]
        }
    } else if len == 3 {
        if high_first {
            65536 * bytes[at] + 256 * bytes[at + 1] + bytes[at + 2]
        } else {
            65536 * bytes[at + 2] + 256 * bytes[at + 1] + bytes[at]
        }
    } else {
        if high_first {
            16777216 * bytes[at] + 65536 * bytes[at + 1] + 256 * bytes[at + 2] + bytes[at + 3]
        } else {
            16777216 * bytes[at + 3] + 65536 * bytes[at + 2] + 256 * bytes[at + 1] + bytes[at]
        }
    }
}

/// A field is read as the number in its bytes, in its byte order, where the payload holds
/// all of them.
pub proof fn law_field_is_read(payload: Seq<u8>, field: ImageField)
    requires
        1 <= field.len <= 4,
    ensures
        field_value(payload, field) is Some <==> field.at + field.len <= payload.len(),
        field_value(payload, field) matches Some(v) ==> v == number_in(
            payload,
            field.at as int,
            field.len as int,
            field.endian == ByteOrderDef::Be,
        ),
{
    if field.at + field.len <= payload.len() {
        reveal_with_fuel(big_endian, 5);
        let part = payload.subrange(field.at as int, field.at + field.len);
        let turned = part.reverse();
        assert forall|i: int| 0 <= i < part.len() implies part[i] == payload[field.at + i]
            && turned[i] == payload[field.at + (field.len - 1 - i)] by {}
        assert(part.drop_last().len() == field.len - 1);
        assert(turned.drop_last().len() == field.len - 1);
    }
}

/// The payload begins with the header and holds the offset and the chunk.
pub open spec fn is_chunk(l: GeoscanLayout, payload: Seq<u8>) -> bool {
    &&& payload.len() >= l.header.len()
    &&& forall|i: int| 0 <= i < l.header.len() ==> #[trigger] payload[i] == l.header[i]
    &&& payload.len() >= l.offset_field.at + l.offset_field.len
    &&& payload.len() >= l.chunk_at + l.chunk_bytes
}

/// A chunk is taken whenever its payload begins with the header and is long enough, but
/// for JPEG chunks before the first image; and nothing else is taken. It goes to the
/// offset in its field. It starts a new image if that offset is zero and it begins
/// with the start-of-image marker, or, for raw pixels, if there is an image already; else
/// it goes to the last image. The machine has to be able to count that far.
pub proof fn law_chunks_are_taken(l: GeoscanLayout, images: Seq<ImageModel>, payload: Seq<u8>)
    requires
        1 <= l.offset_field.len <= 4,
        0 < l.chunk_bytes <= 0x7FFF_FFFF,
        l.chunk_at >= 0,
        images_sound(l, images),
        images.len() < u32::MAX,
    ensures
        ({
            let offset = number_in(
                payload,
                l.offset_field.at as int,
                l.offset_field.len as int,
                l.offset_field.endian == ByteOrderDef::Be,
            );
            let marked = l.chunk_bytes >= 2 && payload[l.chunk_at] == 0xFF && payload[l.chunk_at
                + 1] == 0xD8;
            let starts = offset == 0 && match l.decoder {
                ImageDecoder::Jpeg => marked,
                ImageDecoder::Raw => images.len() > 0,
            };
            let anchored = l.decoder == ImageDecoder::Raw || images.len() > 0 || starts;
            let (after, update) = geoscan_step(l, images, payload);
            &&& !is_chunk(l, payload) || !anchored ==> update is None && after == images
            &&& is_chunk(l, payload) && anchored && offset + 2 * l.chunk_bytes <= u32::MAX ==> {
                &&& update is Some
                &&& update->0.offset == offset
                &&& update->0.bytes_written == l.chunk_bytes
                &&& update->0.chunk_idx == offset / l.chunk_bytes
                &&& update->0.started_new_image == starts
                &&& after.len() == images.len() + if starts || images.len() == 0 {
                    1int
                } else {
                    0
                }
                &&& update->0.image_idx == after.len() - 1
            }
        }),
{
    law_field_is_read(payload, l.offset_field);
    assert(payload.len() >= l.header.len() ==> (payload.take(l.header.len() as int) == l.header
        <==> forall|i: int| 0 <= i < l.header.len() ==> #[trigger] payload[i] == l.header[i])) by {
        let front = payload.take(l.header.len() as int);
        if payload.len() >= l.header.len() {
            if front == l.header {
                assert forall|i: int| 0 <= i < l.header.len() implies #[trigger] payload[i]
                    == l.header[i] by {
                    assert(front[i] == payload[i]);
                }
            }
            if forall|i: int| 0 <= i < l.header.len() ==> #[trigger] payload[i] == l.header[i] {
                assert(front =~= l.header);
            }
        }
    }
    if is_chunk(l, payload) {
        let offset = number_in(
            payload,
            l.offset_field.at as int,
            l.offset_field.len as int,
            l.offset_field.endian == ByteOrderDef::Be,
        );
        let chunk = payload.subrange(l.chunk_at, l.chunk_at + l.chunk_bytes);
        assert(l.chunk_bytes >= 2 ==> chunk[0] == payload[l.chunk_at] && chunk[1]
            == payload[l.chunk_at + 1]);
        lemma_quotients(offset, l.chunk_bytes);
        if images.len() > 0 {
            assert(crate::image::image_sound(images[images.len() - 1], l.chunk_bytes));
        }
    }
}

proof fn lemma_quotients(offset: int, cb: int)
    requires
        0 <= offset,
        0 < cb,
    ensures
        0 <= offset / cb <= offset,
        slots_for(offset + cb, cb) <= offset + 2 * cb,
{
    vstd::arithmetic::div_mod::lemma_div_is_ordered_by_denominator(offset, 1, cb);
    vstd::arithmetic::div_mod::lemma_div_is_ordered_by_denominator(offset + cb + cb - 1, 1, cb);
    vstd::arithmetic::div_mod::lemma_div_pos_is_pos(offset, cb);
}

/// Two characters are the same, or the same letter in different cases.
pub open spec fn same_letter(a: char, b: char) -> bool {
    ||| a == b
    ||| 'A' <= a <= 'Z' && b as int == a as int - 'A' as int + 'a' as int
    ||| 'A' <= b <= 'Z' && a as int == b as int - 'A' as int + 'a' as int
}

/// An SSDV payload is taken if it decodes and its callsign is the one asked for, whatever
/// the case of its letters; without a filter any callsign is.
pub proof fn law_filter_selects_callsigns(filter: Option<Seq<char>>, payload: Seq<u8>)
    ensures
        match ssdv_decoded(payload) {
            Err(_) => accepted(filter, payload) is None,
            Ok(p) => {
                let fits = filter matches Some(f) ==> f.len() == p.callsign.len() && forall|i: int|
                    0 <= i < f.len() ==> #[trigger] same_letter(p.callsign[i], f[i]);
                &&& fits ==> accepted(filter, payload) == Some(p)
                &&& !fits ==> accepted(filter, payload) is None
            },
        },
{
    if let Ok(p) = ssdv_decoded(payload) {
        if let Some(f) = filter {
            let same = crate::image::same_ignoring_case(p.callsign, f);
            if f.len() == p.callsign.len() && forall|i: int|
                0 <= i < f.len() ==> #[trigger] same_letter(p.callsign[i], f[i]) {
                assert forall|i: int| 0 <= i < p.callsign.len() implies crate::words::lower_char(
                    #[trigger] p.callsign[i],
                ) == crate::words::lower_char(f[i]) by {
                    assert(same_letter(p.callsign[i], f[i]));
                }
            }
            if same {
                assert forall|i: int| 0 <= i < f.len() implies #[trigger] same_letter(
                    p.callsign[i],
                    f[i],
                ) by {
                    assert(crate::words::lower_char(p.callsign[i]) == crate::words::lower_char(
                        f[i],
                    ));
                }
            }
        }
    }
}

/// What is returned for a taken SSDV payload, after any payloads: the place of its image
/// among those seen, its packet number, the size of its payload, whether that number is
/// new for the image, and whether the image is.
pub proof fn law_packet_update(filter: Option<Seq<char>>, payloads: Seq<Seq<u8>>, payload: Seq<u8>)
    ensures
        match accepted(filter, payload) {
            None => ssdv_step(filter, ssdv_run(filter, payloads), payload) == (
                ssdv_run(filter, payloads),
                None::<crate::image::PacketUpdate>,
            ),
            Some(p) => {
                let update = ssdv_step(filter, ssdv_run(filter, payloads), payload).1;
                let seen = ids_seen(filter, payloads);
                &&& update is Some
                &&& update->0.offset == p.packet_id
                &&& update->0.chunk_idx == p.packet_id
                &&& p.payload.len() <= usize::MAX ==> update->0.bytes_written == p.payload.len()
                &&& update->0.started_new_image == !seen.contains(p.image_id)
                &&& seen.len() < u32::MAX ==> update->0.image_idx <= seen.len()
                &&& seen.len() < u32::MAX && seen.contains(p.image_id) ==> seen[update->0.image_idx as int]
                    == p.image_id
                &&& seen.len() < u32::MAX && !seen.contains(p.image_id) ==> update->0.image_idx
                    == seen.len()
                &&& update->0.fresh == !numbers(came_for(filter, payloads, p.image_id)).contains(
                    p.packet_id as int,
                )
            },
        },
{
    if let Some(p) = accepted(filter, payload) {
        let images = ssdv_run(filter, payloads);
        let seen = ids_seen(filter, payloads);
        law_one_stream_per_image(filter, payloads);
        lemma_known(images, p.image_id, 0);
        let came = came_for(filter, payloads, p.image_id);
        match image_with_id(images, p.image_id, 0) {
            Some(i) => {
                assert(images[i].image_id == seen[i]);
                assert(seen.contains(p.image_id));
                assert(images[i].packets == collected(came));
                law_packets_are_counted(came);
            },
            None => {
                if seen.contains(p.image_id) {
                    let i = choose|i: int| 0 <= i < seen.len() && seen[i] == p.image_id;
                    assert(images[i].image_id == seen[i]);
                }
                assert(came.len() == 0);
                assert(!numbers(came).contains(p.packet_id as int));
            },
        }
    }
}

proof fn lemma_known(images: Seq<SsdvImageModel>, id: u8, from: int)
    requires
        0 <= from,
    ensures
        match image_with_id(images, id, from) {
            Some(i) => from <= i < images.len() && images[i].image_id == id,
            None => forall|i: int|
                from <= i < images.len() ==> (#[trigger] images[i]).image_id != id,
        },
    decreases images.len() - from,
{
    if from < images.len() && images[from].image_id != id {
        lemma_known(images, id, from + 1);
    }
}

/// Of packets with the same number the latest is kept.
pub proof fn law_latest_packet_is_kept(came: Seq<PacketModel>, i: int)
    requires
        0 <= i < came.len(),
        forall|j: int| i < j < came.len() ==> (#[trigger] came[j]).packet_id != came[i].packet_id,
    ensures
        came[i].packet_id < collected(came).len(),
        collected(came)[came[i].packet_id as int] == Some(came[i]),
    decreases came.len(),
{
    if i < came.len() - 1 {
        let before = came.drop_last();
        assert forall|j: int| i < j < before.len() implies (#[trigger] before[j]).packet_id
            != before[i].packet_id by {
            assert(before[j] == came[j]);
        }
        law_latest_packet_is_kept(before, i);
        assert(came[came.len() - 1].packet_id != came[i].packet_id);
    }
}

/// The packets that are there, among the first `n`, by their numbers.
pub open spec fn present(packets: Seq<Option<PacketModel>>, n: nat) -> Seq<PacketModel>
    decreases n,
{
    if n == 0 {
        Seq::empty()
    } else {
        match packets[n - 1] {
            Some(p) => present(packets, (n - 1) as nat).push(p),
            None => present(packets, (n - 1) as nat),
        }
    }
}

/// The JPEG of an image is made of all packets that are there, in the order of their
/// numbers, and of nothing else.
pub proof fn law_packets_are_fed_in_order(packets: Seq<Option<PacketModel>>)
    ensures
        packets_jpeg(packets) == jpeg_of(fed_all(present(packets, packets.len()))),
{
    lemma_fed_in_order(packets, packets.len());
}

proof fn lemma_fed_in_order(packets: Seq<Option<PacketModel>>, n: nat)
    requires
        n <= packets.len(),
    ensures
        fed_packets(packets, n) == fed_all(present(packets, n)),
    decreases n,
{
    if n > 0 {
        lemma_fed_in_order(packets, (n - 1) as nat);
        if let Some(p) = packets[n - 1] {
            let now = present(packets, n);
            assert(now.drop_last() =~= present(packets, (n - 1) as nat));
        }
    }
}

/// Two hexadecimal digits in either case are read as a byte, the high one first, and
/// other characters are not.
pub proof fn law_hex_pair(a: u8, b: u8)
    requires
        a < 128,
        b < 128,
    ensures
        hex_pair(a, b) is Some <==> hex_value(a as char) is Some && hex_value(b as char) is Some,
        hex_pair(a, b) matches Some(v) ==> v == 16 * hex_value(a as char)->Some_0 + hex_value(
            b as char,
        )->Some_0,
{
}

/// The text with its white space left out.
pub open spec fn without_blanks(text: Seq<char>) -> Seq<char>
    decreases text.len(),
{
    if text.len() == 0 {
        Seq::empty()
    } else if blank(text.last() as int) {
        without_blanks(text.drop_last())
    } else {
        without_blanks(text.drop_last()).push(text.last())
    }
}

proof fn lemma_visible(text: Seq<char>)
    ensures
        visible(text) == without_blanks(text),
    decreases text.len(),
{
    reveal(Seq::filter);
    if text.len() > 0 {
        lemma_visible(text.drop_last());
        lemma_blank(text.last());
    }
}

/// Digits in pairs: at least one pair, and no character that is no hexadecimal digit.
pub open spec fn digit_pairs(digits: Seq<char>) -> bool {
    &&& digits.len() > 0
    &&& digits.len() % 2 == 0
    &&& forall|i: int| 0 <= i < digits.len() ==> hex_value(#[trigger] digits[i]) is Some
}

proof fn lemma_bad_pair(bytes: Seq<u8>, digits: Seq<char>, from: int)
    requires
        0 <= from,
        bytes.len() == digits.len(),
        bytes.len() % 2 == 0,
        forall|i: int| 0 <= i < digits.len() ==> #[trigger] digits[i] as int == bytes[i],
        forall|i: int| 0 <= i < digits.len() ==> (#[trigger] digits[i] as int) < 128,
    ensures
        bad_pair(bytes, from) is None <==> forall|i: int|
            2 * from <= i < digits.len() ==> hex_value(#[trigger] digits[i]) is Some,
    decreases bytes.len() - 2 * from,
{
    if 2 * from + 1 < bytes.len() {
        let a = digits[2 * from];
        let b = digits[2 * from + 1];
        lemma_bad_pair(bytes, digits, from + 1);
        law_hex_pair(bytes[2 * from], bytes[2 * from + 1]);
        assert(a == bytes[2 * from] as char && b == bytes[2 * from + 1] as char);
        if bad_pair(bytes, from) is None {
            assert forall|i: int| 2 * from <= i < digits.len() implies hex_value(
                #[trigger] digits[i],
            ) is Some by {
                if i > 2 * from + 1 {
                    assert(i >= 2 * (from + 1));
                }
            }
        }
    }
}

/// A signature in ASCII is read pair by pair, the high digit first, whatever white space
/// stands in it. One with other characters, with a digit too many or without any is
/// refused.
pub proof fn law_signature_is_read(text: Seq<char>)
    requires
        vstd::utf8::is_ascii_chars(without_blanks(text)),
    ensures
        ({
            let digits = without_blanks(text);
            &&& hex_result(text) is Ok <==> digit_pairs(digits)
            &&& hex_result(text) matches Ok(bytes) ==> {
                &&& 2 * bytes.len() == digits.len()
                &&& forall|i: int|
                    0 <= i < bytes.len() ==> #[trigger] bytes[i] == 16 * hex_value(
                        digits[2 * i],
                    )->Some_0 + hex_value(digits[2 * i + 1])->Some_0
            }
        }),
{
    let digits = without_blanks(text);
    lemma_visible(text);
    vstd::utf8::is_ascii_chars_encode_utf8(digits);
    let bytes = vstd::utf8::encode_utf8(digits);
    assert forall|i: int| 0 <= i < digits.len() implies #[trigger] digits[i] as int == bytes[i] by {
        assert(digits[i] as u8 == bytes[i]);
    }
    if digits.len() % 2 == 0 {
        lemma_bad_pair(bytes, digits, 0);
        if hex_result(text) is Ok {
            let got = hex_result(text)->Ok_0;
            assert forall|i: int| 0 <= i < got.len() implies #[trigger] got[i] == 16 * hex_value(
                digits[2 * i],
            )->Some_0 + hex_value(digits[2 * i + 1])->Some_0 by {
                law_hex_pair(bytes[2 * i], bytes[2 * i + 1]);
                assert(digits[2 * i] == bytes[2 * i] as char);
                assert(digits[2 * i + 1] == bytes[2 * i + 1] as char);
                assert(hex_value(digits[2 * i]) is Some);
                assert(hex_value(digits[2 * i + 1]) is Some);
            }
        }
    }
}

/// The two stretches of bytes have none in common.
pub open spec fn apart(a: int, a_len: int, b: int, b_len: int) -> bool {
    a + a_len <= b || b + b_len <= a
}

/// A Geoscan image definition can be used if its signature is read, its offset field has one
/// to four bytes, its chunks are not empty, signature and offset lie outside of the chunk,
/// the signature before it, and raw pictures have columns and rows. SSDV needs
/// nothing, and SSTV is not put together from packets.
pub proof fn law_usable_image_definitions(def: ImageDef)
    ensures
        match def {
            ImageDef::Geoscan {
                header_signature,
                offset_field,
                chunk_at,
                chunk_bytes,
                decoder,
                width,
                height,
                pixel_format,
            } => image_fault(def) is None <==> {
                &&& hex_result(header_signature@) is Ok
                &&& 1 <= offset_field.len <= 4
                &&& chunk_bytes > 0
                &&& hex_result(header_signature@)->Ok_0.len() <= chunk_at
                &&& apart(
                    offset_field.at as int,
                    offset_field.len as int,
                    chunk_at as int,
                    chunk_bytes as int,
                )
                &&& decoder == ImageDecoderDef::Raw ==> width > 0 && height > 0
            },
            ImageDef::Ssdv { .. } => image_fault(def) is None,
            ImageDef::Sstv {  } => image_fault(def) is Some,
        },
{
}

/// A chunk changes the bytes that it covers and no others; where it begins beyond the end,
/// zeros come before it.
pub proof fn law_bytes_around_a_chunk_stay(bytes: Seq<u8>, offset: int, chunk: Seq<u8>, i: int)
    requires
        offset >= 0,
        0 <= i < overlaid(bytes, offset, chunk).len(),
    ensures
        overlaid(bytes, offset, chunk).len() == bytes.len() || overlaid(bytes, offset, chunk).len()
            == offset + chunk.len(),
        overlaid(bytes, offset, chunk).len() >= bytes.len(),
        overlaid(bytes, offset, chunk).len() >= offset + chunk.len(),
        offset <= i < offset + chunk.len() ==> overlaid(bytes, offset, chunk)[i] == chunk[i
            - offset],
        !(offset <= i < offset + chunk.len()) && i < bytes.len() ==> overlaid(
            bytes,
            offset,
            chunk,
        )[i] == bytes[i],
        !(offset <= i < offset + chunk.len()) && i >= bytes.len() ==> overlaid(
            bytes,
            offset,
            chunk,
        )[i] == 0,
{
}

/// What a stream shows after a chunk was taken for its image: the chunk at its offset, its
/// slot marked and named as the latest, and the slots counted once each. The first chunk
/// of an image makes a stream that ends with it; later ones make it no shorter.
pub proof fn law_stream_after_a_chunk(
    l: GeoscanLayout,
    images: Seq<ImageModel>,
    payload: Seq<u8>,
    stream: ImageStream,
)
    requires
        1 <= l.offset_field.len <= 4,
        0 < l.chunk_bytes <= 0x7FFF_FFFF,
        l.chunk_at >= 0,
        images_sound(l, images),
        images.len() < u32::MAX,
        geoscan_step(l, images, payload).1 is Some,
        geoscan_step(l, images, payload).1->0.offset + 2 * l.chunk_bytes <= u32::MAX,
        geoscan_step(l, images, payload).1->0.offset == number_in(
            payload,
            l.offset_field.at as int,
            l.offset_field.len as int,
            l.offset_field.endian == ByteOrderDef::Be,
        ),
        shows(
            stream,
            geoscan_step(l, images, payload).0.len() - 1,
            geoscan_step(l, images, payload).0.last(),
        ),
    ensures
        ({
            let (after, update) = geoscan_step(l, images, payload);
            let u = update->0;
            let slot = u.offset as int / l.chunk_bytes;
            &&& stream.image_idx == u.image_idx
            &&& stream.last_offset == u.offset
            &&& stream.last_chunk_idx == slot
            &&& bit_at(stream.received_chunks@, slot)
            &&& stream.bytes@.len() >= u.offset + l.chunk_bytes
            &&& forall|k: int|
                0 <= k < l.chunk_bytes ==> #[trigger] stream.bytes@[u.offset + k]
                    == payload[l.chunk_at + k]
            &&& after.len() > images.len() ==> {
                &&& u.fresh
                &&& stream.received_count == 1
                &&& stream.bytes@.len() == u.offset + l.chunk_bytes
                &&& forall|k: int| 0 <= k < u.offset ==> #[trigger] stream.bytes@[k] == 0
            }
            &&& after.len() == images.len() ==> {
                &&& u.fresh <==> !images.last().slots.contains(slot)
                &&& stream.received_count == images.last().slots.len() + if u.fresh {
                    1int
                } else {
                    0
                }
            }
        }),
{
    law_chunks_are_taken(l, images, payload);
    law_field_is_read(payload, l.offset_field);
    let (after, update) = geoscan_step(l, images, payload);
    let u = update->0;
    let offset = u.offset as int;
    let slot = offset / l.chunk_bytes;
    let chunk = payload.subrange(l.chunk_at, l.chunk_at + l.chunk_bytes);
    let m = after.last();
    lemma_quotients(offset, l.chunk_bytes);
    assert(chunk.len() == l.chunk_bytes);
    assert(m.slots.contains(slot));
    assert(bit_at(stream.received_chunks@, slot));
    assert forall|k: int| 0 <= k < l.chunk_bytes implies #[trigger] stream.bytes@[u.offset + k]
        == payload[l.chunk_at + k] by {
        assert(chunk[k] == payload[l.chunk_at + k]);
    }
    if after.len() > images.len() {
        assert(m.slots =~= Set::<int>::empty().insert(slot));
    } else {
        let before = images.last();
        assert(images[images.len() - 1] == before);
        assert(crate::image::image_sound(before, l.chunk_bytes));
        assert(m.slots == before.slots.insert(slot));
    }
}

/// What a stream shows after an SSDV packet was taken for its image: the packet named as the
/// latest, and the JPEG of all packets that came for the image.
pub proof fn law_stream_after_a_packet(
    filter: Option<Seq<char>>,
    payloads: Seq<Seq<u8>>,
    payload: Seq<u8>,
    stream: ImageStream,
    i: int,
)
    requires
        accepted(filter, payload) is Some,
        0 <= i < ssdv_run(filter, payloads.push(payload)).len(),
        ssdv_run(filter, payloads.push(payload))[i].image_id == accepted(filter, payload)->0.image_id,
        shows_ssdv(stream, i, ssdv_run(filter, payloads.push(payload))[i]),
    ensures
        ({
            let p = accepted(filter, payload)->0;
            let packets = collected(came_for(filter, payloads.push(payload), p.image_id));
            &&& stream.image_idx == i
            &&& stream.last_offset == p.packet_id
            &&& stream.last_chunk_idx == p.packet_id
            &&& bit_at(stream.received_chunks@, p.packet_id as int)
            &&& stream.bytes@ == jpeg_of(fed_all(present(packets, packets.len())))
        }),
{
    let all = payloads.push(payload);
    let p = accepted(filter, payload)->0;
    let images = ssdv_run(filter, payloads);
    let after = ssdv_run(filter, all);
    assert(all.drop_last() =~= payloads);
    assert(after == ssdv_step(filter, images, payload).0);
    law_one_stream_per_image(filter, all);
    let packets = collected(came_for(filter, all, p.image_id));
    assert(after[i].packets == packets);
    law_packets_are_fed_in_order(packets);
    lemma_known(images, p.image_id, 0);
    match image_with_id(images, p.image_id, 0) {
        Some(k) => {
            if k != i {
                assert(after[k].image_id == p.image_id);
            }
        },
        None => {
            if i < images.len() {
                assert(after[i] == images[i]);
            }
        },
    }
    assert(after[i].last == p.packet_id);
    assert(packets[p.packet_id as int] is Some);
    assert(crate::image::packet_slots(packets).contains(p.packet_id as int));
}

/// A reassembler is built as its definition says, and has no images yet.
pub proof fn law_reassemblers_are_built(def: ImageDef, r: Reassembler)
    requires
        builds(def, r),
    ensures
        def matches ImageDef::Geoscan {
            header_signature,
            offset_field,
            chunk_at,
            chunk_bytes,
            decoder,
            width,
            height,
            pixel_format,
        } ==> {
            &&& r matches Reassembler::Geoscan(g)
            &&& g@.len() == 0
            &&& Ok::<Seq<u8>, Seq<char>>(g.layout().header) == hex_result(header_signature@)
                || hex_result(header_signature@) is Err
            &&& g.layout().offset_field == offset_field
            &&& g.layout().chunk_at == chunk_at
            &&& g.layout().chunk_bytes == chunk_bytes
            &&& g.layout().width == width
            &&& g.layout().height == height
            &&& g.layout().decoder == ImageDecoder::Raw <==> decoder == ImageDecoderDef::Raw
            &&& g.layout().pixel_format == PixelFormat::Gray8 <==> pixel_format
                == PixelFormatDef::Gray8
            &&& g.layout().pixel_format == PixelFormat::Rgb565 <==> pixel_format
                == PixelFormatDef::Rgb565
        },
        def matches ImageDef::Ssdv { callsign } ==> {
            &&& r matches Reassembler::Ssdv(s)
            &&& s@.len() == 0
            &&& callsign is None <==> s.filter() is None
            &&& callsign matches Some(c) ==> s.filter() == Some(c@)
        },
        !(def is Sstv),
{
}

/// The streams of a snapshot have as many slots as they have chunks, whole or not, and
/// count those that came.
pub proof fn law_streams_are_sound(stream: ImageStream, chunk_bytes: int)
    requires
        chunk_bytes > 0,
        stream_sound(stream, chunk_bytes),
    ensures
        stream.total_chunks * chunk_bytes >= stream.bytes@.len(),
        (stream.total_chunks - 1) * chunk_bytes < stream.bytes@.len(),
        1 <= stream.received_count,
        forall|k: int|
            #[trigger] bit_at(stream.received_chunks@, k) ==> 0 <= k < stream.total_chunks,
{
    let n = stream.bytes@.len() as int;
    let q = (n + chunk_bytes - 1) / chunk_bytes;
    vstd::arithmetic::div_mod::lemma_fundamental_div_mod(n + chunk_bytes - 1, chunk_bytes);
    assert(chunk_bytes * q == q * chunk_bytes) by (nonlinear_arith);
    assert((q - 1) * chunk_bytes == q * chunk_bytes - chunk_bytes) by (nonlinear_arith);
}

/// Pixels take one to three bytes.
pub proof fn law_bytes_of_a_pixel(format: PixelFormat)
    ensures
        format == PixelFormat::Gray8 ==> format.pixel_size() == 1,
        format == PixelFormat::Rgb565 ==> format.pixel_size() == 2,
        format == PixelFormat::Rgb888 ==> format.pixel_size() == 3,
{
}

} // verus!
