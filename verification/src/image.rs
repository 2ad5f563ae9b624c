//! Image-frame reassembly.
//!
//! Some satellites send images split across many small frames. Each frame
//! carries a fixed-size raw chunk and a byte offset into the linear stream that
//! the chunks rebuild. Frames arrive out of order and with gaps from the LEO
//! pass edges; the reassembler's job is to slot each chunk into the correct
//! stream position and keep a per-chunk receipt bitmap so that what is missing
//! can be shown.
//!
//! ## Image boundaries
//!
//! The Geoscan custom protocol (STRATOSAT-TK-1, Geoscan-Edelveis) does not carry
//! an explicit image-id field. New images are detected at run time, by watching
//! for the offset returning to zero with the chunk starting in the
//! decoder-specific start-of-image marker:
//!
//! * `Jpeg` decoder: the JPEG SOI (`FF D8`) at the start of an offset-0 chunk.
//! * `Raw` decoder: any offset-0 chunk arriving after the current image already
//!   had data written.
use vstd::prelude::*;
use vstd::string::{StrSliceExecFns, StringExecFns, StringSliceAdditionalSpecFns};
use vstd::utf8::encode_utf8;
use crate::bitmap::{bit_at, get_bit, grow, lemma_slot_count, mark, marks, words_for};
use crate::satellite::{ByteOrderDef, ImageDecoderDef, ImageDef, ImageField, PixelFormatDef};
use crate::slices::copy_range;
use crate::ssdv::{payload_size, ssdv_decoded, PacketModel, SsdvDecoder, SsdvPacket, SsdvPacketKind};
use crate::ssdv_jpeg::{fed, initial, jpeg_of, JpegBuilder, ScanState};
use crate::text::{decimal, decimal_string};
use crate::words::{is_space, lower, lower_char, white_space};

verus! {

/// Stateful reassembler that consumes raw frame payloads and accumulates one or
/// more image streams over time.
pub trait ImageReassembler: Send {
    /// The state is one that the reassembler can be in.
    spec fn ready(&self) -> bool;

    /// The number of images seen.
    spec fn image_count(&self) -> nat;

    /// Feed one decoded frame payload to the reassembler.
    ///
    /// Returns `Some(update)` when the payload was an image chunk and at least
    /// one byte was written into a stream, even if the chunk is a duplicate of
    /// one already received. Returns `None` when the payload's header does not
    /// match the configured signature or the chunk is structurally invalid
    /// (out-of-range offsets etc.).
    fn ingest(&mut self, payload: &[u8]) -> (r: Option<PacketUpdate>)
        requires
            old(self).ready(),
            old(self).image_count() < u32::MAX,
        ensures
            final(self).ready(),
            final(self).image_count() <= old(self).image_count() + 1,
    ;

    /// Produce a snapshot of every reassembled image, in arrival order.
    fn snapshot(&self) -> (s: ImageSnapshot)
        requires
            self.ready(),
        ensures
            s.images@.len() == self.image_count(),
    ;

    /// Drop all accumulated state and start over.
    fn reset(&mut self)
        requires
            old(self).ready(),
        ensures
            final(self).ready(),
            final(self).image_count() == 0,
    ;
}

/// Result of a successful chunk write.
#[derive(Debug, Clone, Copy, PartialEq, Eq, Structural)]
pub struct PacketUpdate {
    /// Internal image index this chunk belongs to (0 = first image observed in
    /// this session, 1 = next, ...).
    pub image_idx: u32,
    /// Byte offset into the image stream where the chunk was written.
    pub offset: u32,
    /// Number of bytes written.
    pub bytes_written: usize,
    /// Index of the chunk slot in the receipt bitmap.
    pub chunk_idx: u32,
    /// `true` if this was the first time this chunk slot was filled; `false` if
    /// a chunk already existed at the same slot and was overwritten.
    pub fresh: bool,
    /// `true` if this chunk started a new image (offset 0 + decoder's
    /// start-of-image marker).
    pub started_new_image: bool,
}

/// Read-only view of every reassembled image, suitable for rendering.
#[derive(Debug)]
pub struct ImageSnapshot {
    /// Decoder used to interpret each image's byte stream.
    pub decoder: ImageDecoder,
    /// Raw-mode canvas width in pixels (ignored for `Jpeg`).
    pub width: u32,
    /// Raw-mode canvas height in pixels (ignored for `Jpeg`).
    pub height: u32,
    /// Raw-mode pixel format (ignored for `Jpeg`).
    pub pixel_format: PixelFormat,
    /// Bytes per chunk slot.
    pub chunk_bytes: u32,
    /// One entry per image observed in this session, in arrival order.
    pub images: Vec<ImageStream>,
}

/// Reassembled state for a single image.
#[derive(Debug)]
pub struct ImageStream {
    /// Internal index assigned in arrival order.
    pub image_idx: u32,
    /// Reassembled byte stream. Length grows on demand: each new chunk extends
    /// the buffer to cover at least `offset + chunk.len()`.
    pub bytes: Vec<u8>,
    /// One bit per chunk slot covered by `bytes`; `true` when a chunk has been
    /// received for that slot.
    pub received_chunks: Vec<u64>,
    /// Number of chunk slots covered by `bytes` (rounded up).
    pub total_chunks: u32,
    /// Number of unique chunk slots that have received at least one chunk.
    /// Capped at `total_chunks`.
    pub received_count: u32,
    /// Byte offset of the most recently written chunk.
    pub last_offset: u32,
    /// Slot index of the most recently written chunk.
    pub last_chunk_idx: u32,
}

impl ImageStream {
    /// Test whether the chunk slot at `idx` has ever been written.
    pub fn chunk_received(&self, idx: u32) -> (r: bool)
        ensures
            r == bit_at(self.received_chunks@, idx as int),
    {
        get_bit(&self.received_chunks, idx)
    }
}

/// Decoder of an image's byte stream.
#[derive(Debug, Clone, Copy, PartialEq, Eq, Structural)]
pub enum ImageDecoder {
    /// Reassembled bytes are a JPEG bitstream.
    Jpeg,
    /// Reassembled bytes are raw pixels.
    Raw,
}

impl From<ImageDecoderDef> for ImageDecoder {
    fn from(value: ImageDecoderDef) -> (d: Self) {
        match value {
            ImageDecoderDef::Jpeg => ImageDecoder::Jpeg,
            ImageDecoderDef::Raw => ImageDecoder::Raw,
        }
    }
}

impl vstd::std_specs::convert::FromSpecImpl<ImageDecoderDef> for ImageDecoder {
    open spec fn obeys_from_spec() -> bool {
        true
    }

    open spec fn from_spec(value: ImageDecoderDef) -> Self {
        match value {
            ImageDecoderDef::Jpeg => ImageDecoder::Jpeg,
            ImageDecoderDef::Raw => ImageDecoder::Raw,
        }
    }
}

/// Pixel format for `Raw` decoder mode.
#[derive(Debug, Clone, Copy, PartialEq, Eq, Structural)]
pub enum PixelFormat {
    /// 8-bit grayscale; one byte per pixel.
    Gray8,
    /// 16-bit RGB565; two bytes per pixel, big-endian.
    Rgb565,
    /// 24-bit RGB888; three bytes per pixel.
    Rgb888,
}

impl PixelFormat {
    /// The bytes of one pixel.
    pub open spec fn pixel_size(self) -> nat {
        match self {
            PixelFormat::Gray8 => 1,
            PixelFormat::Rgb565 => 2,
            PixelFormat::Rgb888 => 3,
        }
    }

    /// Bytes occupied by one pixel.
    pub fn bytes_per_pixel(self) -> (n: usize)
        ensures
            n == self.pixel_size(),
    {
        match self {
            PixelFormat::Gray8 => 1,
            PixelFormat::Rgb565 => 2,
            PixelFormat::Rgb888 => 3,
        }
    }
}

impl From<PixelFormatDef> for PixelFormat {
    fn from(value: PixelFormatDef) -> (f: Self) {
        match value {
            PixelFormatDef::Gray8 => PixelFormat::Gray8,
            PixelFormatDef::Rgb565 => PixelFormat::Rgb565,
            PixelFormatDef::Rgb888 => PixelFormat::Rgb888,
        }
    }
}

impl vstd::std_specs::convert::FromSpecImpl<PixelFormatDef> for PixelFormat {
    open spec fn obeys_from_spec() -> bool {
        true
    }

    open spec fn from_spec(value: PixelFormatDef) -> Self {
        match value {
            PixelFormatDef::Gray8 => PixelFormat::Gray8,
            PixelFormatDef::Rgb565 => PixelFormat::Rgb565,
            PixelFormatDef::Rgb888 => PixelFormat::Rgb888,
        }
    }
}

/// The text without white space.
pub open spec fn visible(text: Seq<char>) -> Seq<char> {
    text.filter(|c: char| !is_space(c))
}

/// The value of a hexadecimal digit.
pub open spec fn hex_value(b: u8) -> Option<u8> {
    if 48 <= b <= 57 {
        Some((b - 48) as u8)
    } else if 65 <= b <= 70 {
        Some((b - 55) as u8)
    } else if 97 <= b <= 102 {
        Some((b - 87) as u8)
    } else {
        None
    }
}

/// The value of two hexadecimal digits.
pub open spec fn hex_pair(a: u8, b: u8) -> Option<u8> {
    match (hex_value(a), hex_value(b)) {
        (Some(h), Some(l)) => Some((16 * h + l) as u8),
        _ => None,
    }
}

/// The first pair from pair `k` on that is no number.
pub open spec fn bad_pair(bytes: Seq<u8>, k: int) -> Option<int>
    decreases bytes.len() - 2 * k,
{
    if 2 * k + 1 >= bytes.len() {
        None
    } else if hex_pair(bytes[2 * k], bytes[2 * k + 1]) is None {
        Some(k)
    } else {
        bad_pair(bytes, k + 1)
    }
}

/// What parsing a hexadecimal string gives.
pub open spec fn hex_result(text: Seq<char>) -> Result<Seq<u8>, Seq<char>> {
    let bytes = encode_utf8(visible(text));
    if bytes.len() == 0 {
        Err("hex string is empty"@)
    } else if bytes.len() % 2 != 0 {
        Err("hex string must have an even nibble count, got "@ + decimal(bytes.len()))
    } else {
        match bad_pair(bytes, 0) {
            Some(k) => Err(
                "bad hex at offset "@ + decimal((2 * k) as nat)
                    + ": invalid digit found in string"@,
            ),
            None => Ok(
                Seq::new(
                    bytes.len() / 2,
                    |i: int| hex_pair(bytes[2 * i], bytes[2 * i + 1])->Some_0,
                ),
            ),
        }
    }
}

fn digit_value(b: u8) -> (r: Option<u8>)
    ensures
        r == hex_value(b),
{
    if 48 <= b && b <= 57 {
        Some(b - 48)
    } else if 65 <= b && b <= 70 {
        Some(b - 55)
    } else if 97 <= b && b <= 102 {
        Some(b - 87)
    } else {
        None
    }
}

fn pair_value(a: u8, b: u8) -> (r: Option<u8>)
    ensures
        r == hex_pair(a, b),
{
    match (digit_value(a), digit_value(b)) {
        (Some(h), Some(l)) => Some(16 * h + l),
        _ => None,
    }
}

/// Parse a hexadecimal string; white space is ignored.
pub fn parse_hex(text: &str) -> (r: Result<Vec<u8>, String>)
    ensures
        match hex_result(text@) {
            Ok(bytes) => r matches Ok(v) && v@ == bytes,
            Err(message) => r matches Err(e) && e@ == message,
        },
{
    let mut cleaned: String = String::new();
    let n: usize = text.unicode_len();
    let mut i: usize = 0;
    proof {
        reveal(Seq::filter);
        assert(text@.take(0).filter(|c: char| !is_space(c)) =~= Seq::<char>::empty());
    }
    while i < n
        invariant
            n == text@.len(),
            i <= n,
            cleaned@ == visible(text@.take(i as int)),
        decreases n - i,
    {
        let c: char = text.get_char(i);
        proof {
            reveal(Seq::filter);
            assert(text@.take(i + 1).drop_last() =~= text@.take(i as int));
            assert(text@.take(i + 1).last() == c);
        }
        if !white_space(c) {
            cleaned.push(c);
        }
        i = i + 1;
    }
    assert(text@.take(n as int) =~= text@);
    let bytes: &[u8] = cleaned.as_str().as_bytes();
    let len: usize = bytes.len();
    if len == 0 {
        return Err("hex string is empty".to_string());
    }
    if len % 2 != 0 {
        return Err(
            "hex string must have an even nibble count, got ".to_string().concat(
                decimal_string(len as u64).as_str(),
            ),
        );
    }
    let mut out: Vec<u8> = Vec::new();
    let mut k: usize = 0;
    while k < len / 2
        invariant
            len == bytes@.len(),
            len % 2 == 0,
            len > 0,
            bytes@ == encode_utf8(visible(text@)),
            k <= len / 2,
            out@.len() == k,
            bad_pair(bytes@, 0) == bad_pair(bytes@, k as int),
            forall|j: int|
                0 <= j < k ==> #[trigger] out@[j] == hex_pair(
                    bytes@[2 * j],
                    bytes@[2 * j + 1],
                )->Some_0,
        decreases len - k,
    {
        match pair_value(bytes[2 * k], bytes[2 * k + 1]) {
            Some(b) => {
                out.push(b);
            },
            None => {
                return Err(
                    "bad hex at offset ".to_string().concat(
                        decimal_string(2 * k as u64).as_str(),
                    ).concat(": invalid digit found in string"),
                );
            },
        }
        k = k + 1;
    }
    assert(out@ =~= hex_result(text@)->Ok_0);
    Ok(out)
}

/// The slots that the words mark.
pub open spec fn slot_set(words: Seq<u64>) -> Set<int> {
    Set::new(|i: int| bit_at(words, i))
}

/// The unsigned number that the bytes form, most significant first.
pub open spec fn big_endian(bytes: Seq<u8>) -> nat
    decreases bytes.len(),
{
    if bytes.len() == 0 {
        0
    } else {
        256 * big_endian(bytes.drop_last()) + bytes.last() as nat
    }
}

/// The number in a field of a payload, if the payload holds it.
pub open spec fn field_value(payload: Seq<u8>, field: ImageField) -> Option<nat> {
    if field.at + field.len > payload.len() {
        None
    } else {
        let bytes = payload.subrange(field.at as int, field.at + field.len);
        Some(
            match field.endian {
                ByteOrderDef::Be => big_endian(bytes),
                ByteOrderDef::Le => big_endian(bytes.reverse()),
            },
        )
    }
}

proof fn lemma_big_endian(bytes: Seq<u8>)
    requires
        bytes.len() <= 4,
    ensures
        big_endian(bytes) <= u32::MAX,
{
    reveal_with_fuel(big_endian, 5);
}

/// Read an unsigned number of up to four bytes.
pub fn read_uint(bytes: &[u8], field: &ImageField) -> (r: Option<u32>)
    requires
        field.len <= 4,
    ensures
        match field_value(bytes@, *field) {
            Some(v) => r == Some(v as u32) && v <= u32::MAX,
            None => r is None,
        },
{
    let total: usize = bytes.len();
    if field.at > total || field.len > total - field.at {
        return None;
    }
    let ghost part = bytes@.subrange(field.at as int, field.at + field.len);
    let ghost digits = match field.endian {
        ByteOrderDef::Be => part,
        ByteOrderDef::Le => part.reverse(),
    };
    let mut value: u32 = 0;
    let mut i: usize = 0;
    assert(digits.take(0) =~= Seq::empty());
    while i < field.len
        invariant
            field.len <= 4,
            total == bytes@.len(),
            field.at + field.len <= total,
            part == bytes@.subrange(field.at as int, field.at + field.len),
            digits == match field.endian {
                ByteOrderDef::Be => part,
                ByteOrderDef::Le => part.reverse(),
            },
            i <= field.len,
            value == big_endian(digits.take(i as int)),
        decreases field.len - i,
    {
        let at: usize = match field.endian {
            ByteOrderDef::Be => field.at + i,
            ByteOrderDef::Le => field.at + (field.len - 1 - i),
        };
        proof {
            let longer = digits.take(i + 1);
            assert(longer.drop_last() =~= digits.take(i as int));
            assert(longer.last() == bytes@[at as int]);
            lemma_big_endian(longer);
        }
        value = 256 * value + bytes[at] as u32;
        i = i + 1;
    }
    proof {
        assert(digits.take(field.len as int) =~= digits);
        lemma_big_endian(digits);
    }
    Some(value)
}

/// What is known of one image.
#[verifier::ext_equal]
pub struct ImageModel {
    /// The byte stream; bytes that never came are zero.
    pub bytes: Seq<u8>,
    /// The chunk slots that were written.
    pub slots: Set<int>,
    /// The number of chunk slots of the stream.
    pub total: nat,
    pub last_offset: nat,
    pub last_slot: nat,
}

/// An image of which nothing came.
pub open spec fn blank_image() -> ImageModel {
    ImageModel {
        bytes: Seq::empty(),
        slots: Set::empty(),
        total: 0,
        last_offset: 0,
        last_slot: 0,
    }
}

/// The number of slots of `len` bytes.
pub open spec fn slots_for(len: int, chunk_bytes: int) -> int {
    (len + chunk_bytes - 1) / chunk_bytes
}

/// The stream with a chunk laid over it at `offset`.
pub open spec fn overlaid(bytes: Seq<u8>, offset: int, chunk: Seq<u8>) -> Seq<u8> {
    let end = offset + chunk.len();
    Seq::new(
        if end > bytes.len() {
            end as nat
        } else {
            bytes.len()
        },
        |i: int|
            if offset <= i < end {
                chunk[i - offset]
            } else if i < bytes.len() {
                bytes[i]
            } else {
                0u8
            },
    )
}

/// The image after a chunk.
pub open spec fn with_chunk(m: ImageModel, offset: int, chunk: Seq<u8>) -> ImageModel {
    let cb = chunk.len() as int;
    let needed = slots_for(offset + cb, cb) as nat;
    ImageModel {
        bytes: overlaid(m.bytes, offset, chunk),
        slots: m.slots.insert(offset / cb),
        total: if needed > m.total {
            needed
        } else {
            m.total
        },
        last_offset: offset as nat,
        last_slot: (offset / cb) as nat,
    }
}

/// The stream shows the image.
pub open spec fn shows(stream: ImageStream, idx: int, m: ImageModel) -> bool {
    &&& stream.image_idx == idx
    &&& stream.bytes@ == m.bytes
    &&& marks(stream.received_chunks@, m.slots)
    &&& stream.received_chunks@.len() == words_for(m.total as int)
    &&& stream.total_chunks == m.total
    &&& stream.received_count == m.slots.len()
    &&& stream.last_offset == m.last_offset
    &&& stream.last_chunk_idx == m.last_slot
}

struct GeoscanImageState {
    image_idx: u32,
    bytes: Vec<u8>,
    received: Vec<u64>,
    total_chunks: u32,
    received_count: u32,
    last_offset: u32,
    last_chunk_idx: u32,
}

impl GeoscanImageState {
    spec fn view(&self) -> ImageModel {
        ImageModel {
            bytes: self.bytes@,
            slots: slot_set(self.received@),
            total: self.total_chunks as nat,
            last_offset: self.last_offset as nat,
            last_slot: self.last_chunk_idx as nat,
        }
    }

    spec fn wf(&self) -> bool {
        &&& self.received@.len() == words_for(self.total_chunks as int)
        &&& forall|i: int| #[trigger] self@.slots.contains(i) ==> 0 <= i < self.total_chunks
        &&& self.received_count == self@.slots.len()
    }

    fn new(image_idx: u32) -> (s: Self)
        ensures
            s.wf(),
            s@ == blank_image(),
            s.image_idx == image_idx,
    {
        let s = GeoscanImageState {
            image_idx,
            bytes: Vec::new(),
            received: Vec::new(),
            total_chunks: 0,
            received_count: 0,
            last_offset: 0,
            last_chunk_idx: 0,
        };
        assert(s@.slots =~= Set::empty());
        assert(s@ =~= blank_image());
        s
    }

    /// Make room for the bytes and slots up to `end`.
    fn ensure_capacity(&mut self, end: usize, chunk_bytes: usize)
        requires
            old(self).wf(),
            chunk_bytes > 0,
            slots_for(end as int, chunk_bytes as int) <= u32::MAX,
        ensures
            final(self).wf(),
            final(self).image_idx == old(self).image_idx,
            final(self).received_count == old(self).received_count,
            final(self)@.slots == old(self)@.slots,
            final(self)@.bytes == overlaid(old(self)@.bytes, end as int, Seq::empty()),
            final(self)@.total == if slots_for(end as int, chunk_bytes as int) > old(self)@.total {
                slots_for(end as int, chunk_bytes as int) as nat
            } else {
                old(self)@.total
            },
    {
        while self.bytes.len() < end
            invariant
                self.image_idx == old(self).image_idx,
                self.received == old(self).received,
                self.total_chunks == old(self).total_chunks,
                self.received_count == old(self).received_count,
                self.bytes@.len() <= end || self.bytes@ == old(self).bytes@,
                self.bytes@ == overlaid(old(self)@.bytes, self.bytes@.len() as int, Seq::empty()),
            decreases end - self.bytes.len(),
        {
            self.bytes.push(0);
            assert(self.bytes@ =~= overlaid(
                old(self)@.bytes,
                self.bytes@.len() as int,
                Seq::empty(),
            ));
        }
        assert(self.bytes@ =~= overlaid(old(self)@.bytes, end as int, Seq::empty()));
        let whole: usize = end / chunk_bytes;
        let needed: u32 = if end % chunk_bytes == 0 {
            proof {
                lemma_slots(end as int, chunk_bytes as int);
            }
            whole as u32
        } else {
            proof {
                lemma_slots(end as int, chunk_bytes as int);
            }
            (whole + 1) as u32
        };
        if needed > self.total_chunks {
            self.total_chunks = needed;
            let words: usize = (needed / 64) as usize + if needed % 64 == 0 {
                0
            } else {
                1
            };
            let ghost slots = slot_set(self.received@);
            grow(&mut self.received, words, Ghost(slots));
            assert(slot_set(self.received@) =~= slots);
        }
    }

    /// Write a chunk; whether its slot is new.
    fn write_chunk(&mut self, offset: u32, chunk: &[u8]) -> (fresh: bool)
        requires
            old(self).wf(),
            chunk@.len() > 0,
            offset + chunk@.len() <= usize::MAX,
            slots_for(offset + chunk@.len(), chunk@.len() as int) <= u32::MAX,
        ensures
            final(self).wf(),
            final(self).image_idx == old(self).image_idx,
            final(self)@ == with_chunk(old(self)@, offset as int, chunk@),
            fresh == !old(self)@.slots.contains(offset as int / chunk@.len() as int),
    {
        let len: usize = chunk.len();
        let end: usize = offset as usize + len;
        self.ensure_capacity(end, len);
        let ghost grown = self@;
        let mut i: usize = 0;
        while i < len
            invariant
                len == chunk@.len(),
                end == offset + len,
                i <= len,
                end <= self.bytes@.len(),
                self.wf(),
                self.image_idx == old(self).image_idx,
                self@.slots == grown.slots,
                self@.total == grown.total,
                self.bytes@ == overlaid(grown.bytes, offset as int, chunk@.take(i as int)),
            decreases len - i,
        {
            let at: usize = offset as usize + i;
            self.bytes.set(at, chunk[i]);
            i = i + 1;
            assert(self.bytes@ =~= overlaid(grown.bytes, offset as int, chunk@.take(i as int)));
        }
        assert(self.bytes@ =~= overlaid(old(self)@.bytes, offset as int, chunk@)) by {
            assert(chunk@.take(len as int) =~= chunk@);
        }
        let slot: usize = offset as usize / len;
        proof {
            lemma_slot_below(offset as int, len as int);
            lemma_slot_count(self@.slots.insert(slot as int), self.total_chunks as int);
            lemma_slot_count(self@.slots, self.total_chunks as int);
        }
        let ghost slots = slot_set(self.received@);
        let fresh: bool = mark(&mut self.received, slot as u32, Ghost(slots));
        assert(slot_set(self.received@) =~= slots.insert(slot as int));
        if fresh {
            self.received_count = self.received_count + 1;
        } else {
            assert(slots.insert(slot as int) =~= slots);
        }
        self.last_offset = offset;
        self.last_chunk_idx = slot as u32;
        assert(self@ =~= with_chunk(old(self)@, offset as int, chunk@));
        fresh
    }

    fn snapshot(&self) -> (s: ImageStream)
        requires
            self.wf(),
        ensures
            shows(s, self.image_idx as int, self@),
    {
        assert(self.bytes@.subrange(0, self.bytes@.len() as int) =~= self.bytes@);
        ImageStream {
            image_idx: self.image_idx,
            bytes: copy_range(self.bytes.as_slice(), 0, self.bytes.len()),
            received_chunks: copy_words(&self.received),
            total_chunks: self.total_chunks,
            received_count: self.received_count,
            last_offset: self.last_offset,
            last_chunk_idx: self.last_chunk_idx,
        }
    }
}

fn copy_words(words: &Vec<u64>) -> (out: Vec<u64>)
    ensures
        out@ == words@,
{
    let mut out: Vec<u64> = Vec::new();
    let n: usize = words.len();
    let mut i: usize = 0;
    while i < n
        invariant
            n == words@.len(),
            i <= n,
            out@ == words@.take(i as int),
        decreases n - i,
    {
        out.push(words[i]);
        i = i + 1;
        assert(out@ =~= words@.take(i as int));
    }
    assert(words@.take(n as int) =~= words@);
    out
}

proof fn lemma_slots(len: int, cb: int)
    requires
        cb > 0,
        len >= 0,
    ensures
        len % cb == 0 ==> slots_for(len, cb) == len / cb,
        len % cb != 0 ==> slots_for(len, cb) == len / cb + 1,
{
    let q = len / cb;
    let r = len % cb;
    vstd::arithmetic::div_mod::lemma_fundamental_div_mod(len, cb);
    if r == 0 {
        assert(len + cb - 1 == q * cb + (cb - 1)) by (nonlinear_arith)
            requires
                len == cb * q + r,
                r == 0,
        ;
        vstd::arithmetic::div_mod::lemma_fundamental_div_mod_converse(
            len + cb - 1,
            cb,
            q,
            cb - 1,
        );
    } else {
        assert(len + cb - 1 == (q + 1) * cb + (r - 1)) by (nonlinear_arith)
            requires
                len == cb * q + r,
        ;
        vstd::arithmetic::div_mod::lemma_fundamental_div_mod_converse(
            len + cb - 1,
            cb,
            q + 1,
            r - 1,
        );
    }
}

/// The slot of a chunk is one of those that the chunk needs.
proof fn lemma_slot_below(offset: int, cb: int)
    requires
        cb > 0,
        offset >= 0,
    ensures
        0 <= offset / cb < slots_for(offset + cb, cb),
{
    lemma_slots(offset + cb, cb);
    vstd::arithmetic::div_mod::lemma_div_plus_one(offset, cb);
    vstd::arithmetic::div_mod::lemma_div_pos_is_pos(offset, cb);
}

/// How a Geoscan stream is laid out.
pub struct GeoscanLayout {
    pub header: Seq<u8>,
    pub offset_field: ImageField,
    pub chunk_at: int,
    pub chunk_bytes: int,
    pub decoder: ImageDecoder,
    pub width: u32,
    pub height: u32,
    pub pixel_format: PixelFormat,
}

/// A chunk at offset zero starts a new image: for JPEG when it begins with the
/// SOI marker, for raw pixels when the last image has data.
pub open spec fn starts_image(
    decoder: ImageDecoder,
    images: Seq<ImageModel>,
    chunk: Seq<u8>,
) -> bool {
    match decoder {
        ImageDecoder::Jpeg => chunk.len() >= 2 && chunk[0] == 0xFF && chunk[1] == 0xD8,
        ImageDecoder::Raw => images.len() > 0 && (images.last().slots.len() > 0
            || images.last().bytes.len() > 0),
    }
}

/// Where a payload's chunk belongs: its offset, if the payload is an image chunk.
pub open spec fn chunk_offset(l: GeoscanLayout, payload: Seq<u8>) -> Option<nat> {
    match field_value(payload, l.offset_field) {
        Some(offset) => if payload.len() >= l.header.len() && payload.take(l.header.len() as int)
            == l.header && l.chunk_at + l.chunk_bytes <= payload.len() && l.chunk_bytes <= u32::MAX
            && slots_for(offset + l.chunk_bytes, l.chunk_bytes) <= u32::MAX && offset
            + l.chunk_bytes <= usize::MAX {
            Some(offset)
        } else {
            None
        },
        None => None,
    }
}

/// The images after a payload, and what is returned for it. JPEG chunks before
/// the first SOI are dropped: they have no anchor.
pub open spec fn geoscan_step(
    l: GeoscanLayout,
    images: Seq<ImageModel>,
    payload: Seq<u8>,
) -> (Seq<ImageModel>, Option<PacketUpdate>) {
    match chunk_offset(l, payload) {
        None => (images, None),
        Some(offset) => {
            let chunk = payload.subrange(l.chunk_at, l.chunk_at + l.chunk_bytes);
            let started = offset == 0 && starts_image(l.decoder, images, chunk);
            let opened = if images.len() == 0 || started {
                images.push(blank_image())
            } else {
                images
            };
            let last = opened.len() - 1;
            let slot = offset as int / l.chunk_bytes;
            if images.len() == 0 && !started && l.decoder == ImageDecoder::Jpeg {
                (images, None)
            } else {
                (
                    opened.update(last, with_chunk(opened[last], offset as int, chunk)),
                    Some(
                        PacketUpdate {
                            image_idx: last as u32,
                            offset: offset as u32,
                            bytes_written: l.chunk_bytes as usize,
                            chunk_idx: slot as u32,
                            fresh: !opened[last].slots.contains(slot),
                            started_new_image: started,
                        },
                    ),
                )
            }
        },
    }
}

/// What holds of every image: its slots are those that its bytes fill, the last one
/// perhaps in part, at least one chunk has come, and only its own slots count.
pub open spec fn image_sound(m: ImageModel, chunk_bytes: int) -> bool {
    &&& m.total == slots_for(m.bytes.len() as int, chunk_bytes)
    &&& m.slots.finite()
    &&& m.slots.len() >= 1
    &&& forall|k: int| #[trigger] m.slots.contains(k) ==> 0 <= k < m.total
}

/// Every image is as it has to be.
pub open spec fn images_sound(l: GeoscanLayout, images: Seq<ImageModel>) -> bool {
    forall|i: int| 0 <= i < images.len() ==> image_sound(#[trigger] images[i], l.chunk_bytes)
}

/// What holds of every stream of a snapshot: there are as many slots as chunks fit in
/// its bytes, rounded up, at least one has been received, and the count is that of
/// the slots marked, all of which lie within the stream.
pub open spec fn stream_sound(stream: ImageStream, chunk_bytes: int) -> bool {
    &&& stream.total_chunks == slots_for(stream.bytes@.len() as int, chunk_bytes)
    &&& stream.received_count >= 1
    &&& stream.received_count == slot_set(stream.received_chunks@).len()
    &&& forall|k: int|
        #[trigger] bit_at(stream.received_chunks@, k) ==> 0 <= k < stream.total_chunks
}

proof fn lemma_stream_sound(stream: ImageStream, idx: int, m: ImageModel, chunk_bytes: int)
    requires
        shows(stream, idx, m),
        image_sound(m, chunk_bytes),
    ensures
        stream_sound(stream, chunk_bytes),
{
    assert(slot_set(stream.received_chunks@) =~= m.slots);
}

proof fn lemma_slots_grow(a: int, b: int, cb: int)
    requires
        cb > 0,
        0 <= a <= b,
    ensures
        0 <= slots_for(a, cb) <= slots_for(b, cb),
{
    vstd::arithmetic::div_mod::lemma_div_is_ordered(a + cb - 1, b + cb - 1, cb);
    vstd::arithmetic::div_mod::lemma_div_pos_is_pos(a + cb - 1, cb);
}

/// A chunk written into an image makes or keeps it sound.
proof fn lemma_chunk_keeps_sound(m: ImageModel, offset: int, chunk: Seq<u8>)
    requires
        chunk.len() > 0,
        0 <= offset,
        m == blank_image() || image_sound(m, chunk.len() as int),
    ensures
        image_sound(with_chunk(m, offset, chunk), chunk.len() as int),
{
    let cb = chunk.len() as int;
    let old_len = m.bytes.len() as int;
    let end = offset + cb;
    lemma_slots(0, cb);
    if old_len <= end {
        lemma_slots_grow(old_len, end, cb);
    } else {
        lemma_slots_grow(end, old_len, cb);
    }
    lemma_slot_below(offset, cb);
    assert(with_chunk(m, offset, chunk).slots.contains(offset / cb));
    assert(m.slots.insert(offset / cb).len() >= 1);
}

/// Images stay sound, whatever payload comes.
pub proof fn lemma_images_stay_sound(
    l: GeoscanLayout,
    images: Seq<ImageModel>,
    payload: Seq<u8>,
)
    requires
        l.chunk_bytes > 0,
        l.chunk_at >= 0,
        images_sound(l, images),
    ensures
        images_sound(l, geoscan_step(l, images, payload).0),
{
    if let Some(offset) = chunk_offset(l, payload) {
        let chunk = payload.subrange(l.chunk_at, l.chunk_at + l.chunk_bytes);
        let started = offset == 0 && starts_image(l.decoder, images, chunk);
        let m = if images.len() == 0 || started {
            blank_image()
        } else {
            images[images.len() - 1]
        };
        lemma_chunk_keeps_sound(m, offset as int, chunk);
    }
}

/// Geoscan-protocol reassembler. Frames whose first `header_signature.len()`
/// bytes match the configured signature are treated as image chunks; all other
/// payloads are ignored.
pub struct GeoscanImageReassembler {
    header: Vec<u8>,
    offset_field: ImageField,
    chunk_at: usize,
    chunk_bytes: usize,
    decoder: ImageDecoder,
    width: u32,
    height: u32,
    pixel_format: PixelFormat,
    images: Vec<GeoscanImageState>,
}

impl GeoscanImageReassembler {
    /// The layout of the stream.
    pub closed spec fn layout(&self) -> GeoscanLayout {
        GeoscanLayout {
            header: self.header@,
            offset_field: self.offset_field,
            chunk_at: self.chunk_at as int,
            chunk_bytes: self.chunk_bytes as int,
            decoder: self.decoder,
            width: self.width,
            height: self.height,
            pixel_format: self.pixel_format,
        }
    }

    /// The images so far.
    pub closed spec fn view(&self) -> Seq<ImageModel> {
        self.images@.map_values(|s: GeoscanImageState| s@)
    }

    spec fn images_ok(&self) -> bool {
        forall|i: int|
            0 <= i < self.images@.len() ==> (#[trigger] self.images@[i]).wf()
                && self.images@[i].image_idx == i
    }

    /// Whether a chunk arriving at offset 0 starts a new image.
    fn is_new_image_start(&self, chunk: &[u8]) -> (r: bool)
        requires
            self.images_ok(),
        ensures
            r == starts_image(self.decoder, self@, chunk@),
    {
        match self.decoder {
            ImageDecoder::Jpeg => chunk.len() >= 2 && chunk[0] == 0xFF && chunk[1] == 0xD8,
            ImageDecoder::Raw => {
                let n: usize = self.images.len();
                if n == 0 {
                    false
                } else {
                    let last = &self.images[n - 1];
                    assert(self@.last() == last@);
                    last.received_count > 0 || last.bytes.len() > 0
                }
            },
        }
    }

    /// Start an image.
    fn open_image(&mut self)
        requires
            old(self).images_ok(),
            old(self).images@.len() < u32::MAX,
        ensures
            final(self).images_ok(),
            final(self)@ == old(self)@.push(blank_image()),
            final(self).images@.len() == old(self).images@.len() + 1,
            final(self).layout() == old(self).layout(),
    {
        let idx: u32 = self.images.len() as u32;
        self.images.push(GeoscanImageState::new(idx));
        assert(self@ =~= old(self)@.push(blank_image()));
    }

    /// Write a chunk into the last image.
    fn write_last(&mut self, offset: u32, chunk: &[u8]) -> (r: (u32, bool))
        requires
            old(self).images_ok(),
            0 < old(self).images@.len() <= u32::MAX,
            chunk@.len() > 0,
            offset + chunk@.len() <= usize::MAX,
            slots_for(offset + chunk@.len(), chunk@.len() as int) <= u32::MAX,
        ensures
            final(self).images_ok(),
            final(self).layout() == old(self).layout(),
            r.0 == old(self)@.len() - 1,
            r.1 == !old(self)@.last().slots.contains(offset as int / chunk@.len() as int),
            final(self)@ == old(self)@.update(
                old(self)@.len() - 1,
                with_chunk(old(self)@.last(), offset as int, chunk@),
            ),
    {
        let ghost before = self.images@;
        let mut state: GeoscanImageState = self.images.pop().unwrap();
        assert(state == before[before.len() - 1]);
        assert(old(self)@.last() == state@);
        let fresh: bool = state.write_chunk(offset, chunk);
        let idx: u32 = state.image_idx;
        self.images.push(state);
        assert(self@ =~= old(self)@.update(
            old(self)@.len() - 1,
            with_chunk(old(self)@.last(), offset as int, chunk@),
        ));
        (idx, fresh)
    }

    /// The offset of an image chunk.
    fn locate(&self, payload: &[u8]) -> (r: Option<u32>)
        requires
            self.offset_field.len <= 4,
            self.chunk_bytes > 0,
        ensures
            match chunk_offset(self.layout(), payload@) {
                Some(offset) => r == Some(offset as u32) && offset <= u32::MAX,
                None => r is None,
            },
    {
        let n: usize = self.header.len();
        let total: usize = payload.len();
        if total < n {
            return None;
        }
        let mut i: usize = 0;
        while i < n
            invariant
                n == self.header@.len(),
                n <= payload@.len(),
                i <= n,
                forall|j: int| 0 <= j < i ==> payload@[j] == #[trigger] self.header@[j],
            decreases n - i,
        {
            if payload[i] != self.header[i] {
                assert(payload@.take(n as int)[i as int] != self.header@[i as int]);
                return None;
            }
            i = i + 1;
        }
        assert(payload@.take(n as int) =~= self.header@);
        let offset: u32 = match read_uint(payload, &self.offset_field) {
            Some(offset) => offset,
            None => {
                return None;
            },
        };
        if self.chunk_at > total || self.chunk_bytes > total - self.chunk_at {
            return None;
        }
        if self.chunk_bytes > 0xFFFF_FFFF {
            return None;
        }
        let cb: u64 = self.chunk_bytes as u64;
        proof {
            lemma_slots(offset + cb, cb as int);
        }
        let slots: u64 = (offset as u64 + cb + cb - 1) / cb;
        if slots > 0xFFFF_FFFF {
            return None;
        }
        if self.chunk_bytes > usize::MAX - offset as usize {
            return None;
        }
        Some(offset)
    }
}

impl ImageReassembler for GeoscanImageReassembler {
    closed spec fn ready(&self) -> bool {
        &&& self.images_ok()
        &&& self.images@.len() <= u32::MAX
        &&& 1 <= self.offset_field.len <= 4
        &&& self.chunk_bytes > 0
        &&& images_sound(self.layout(), self@)
    }

    open spec fn image_count(&self) -> nat {
        self@.len()
    }

    fn ingest(&mut self, payload: &[u8]) -> (r: Option<PacketUpdate>)
        ensures
            (final(self)@, r) == geoscan_step(old(self).layout(), old(self)@, payload@),
            final(self).layout() == old(self).layout(),
    {
        proof {
            lemma_images_stay_sound(self.layout(), self@, payload@);
        }
        let offset: u32 = match self.locate(payload) {
            Some(offset) => offset,
            None => {
                return None;
            },
        };
        let total: usize = payload.len();
        assert(self.chunk_at + self.chunk_bytes <= total);
        let chunk: Vec<u8> = copy_range(
            payload,
            self.chunk_at,
            self.chunk_at + self.chunk_bytes,
        );
        let started: bool = offset == 0 && self.is_new_image_start(chunk.as_slice());
        if self.images.len() == 0 && !started && self.decoder == ImageDecoder::Jpeg {
            return None;
        }
        if self.images.len() == 0 || started {
            self.open_image();
        }
        let (image_idx, fresh) = self.write_last(offset, chunk.as_slice());
        assert(self.images@.len() == self@.len());
        proof {
            lemma_slot_below(offset as int, self.chunk_bytes as int);
        }
        Some(
            PacketUpdate {
                image_idx,
                offset,
                bytes_written: chunk.len(),
                chunk_idx: (offset as usize / self.chunk_bytes) as u32,
                fresh,
                started_new_image: started,
            },
        )
    }

    fn snapshot(&self) -> (s: ImageSnapshot)
        ensures
            s.decoder == self.layout().decoder,
            s.width == self.layout().width,
            s.height == self.layout().height,
            s.pixel_format == self.layout().pixel_format,
            s.chunk_bytes == self.layout().chunk_bytes as u32,
            forall|i: int|
                0 <= i < self@.len() ==> shows(#[trigger] s.images@[i], i, self@[i]),
            forall|i: int|
                0 <= i < self@.len() ==> stream_sound(
                    #[trigger] s.images@[i],
                    self.layout().chunk_bytes,
                ),
    {
        let mut images: Vec<ImageStream> = Vec::new();
        let n: usize = self.images.len();
        let mut i: usize = 0;
        while i < n
            invariant
                n == self.images@.len(),
                self.images_ok(),
                i <= n,
                images@.len() == i,
                forall|j: int| 0 <= j < i ==> shows(#[trigger] images@[j], j, self@[j]),
            decreases n - i,
        {
            assert(self.images@[i as int].wf());
            let stream: ImageStream = self.images[i].snapshot();
            images.push(stream);
            i = i + 1;
        }
        proof {
            assert forall|j: int| 0 <= j < self@.len() implies stream_sound(
                #[trigger] images@[j],
                self.layout().chunk_bytes,
            ) by {
                lemma_stream_sound(images@[j], j, self@[j], self.layout().chunk_bytes);
            }
        }
        ImageSnapshot {
            decoder: self.decoder,
            width: self.width,
            height: self.height,
            pixel_format: self.pixel_format,
            chunk_bytes: self.chunk_bytes as u32,
            images,
        }
    }

    fn reset(&mut self)
        ensures
            final(self).layout() == old(self).layout(),
    {
        self.images = Vec::new();
    }
}

/// What is known of one SSDV image.
#[verifier::ext_equal]
pub struct SsdvImageModel {
    pub image_id: u8,
    pub width: u16,
    pub height: u16,
    pub kind: SsdvPacketKind,
    /// The packets by their number.
    pub packets: Seq<Option<PacketModel>>,
    pub last: u16,
}

/// The numbers of the packets that came.
pub open spec fn packet_slots(packets: Seq<Option<PacketModel>>) -> Set<int> {
    Set::new(|i: int| 0 <= i < packets.len() && packets[i] is Some)
}

/// The re-encoder's state after the packets from the first up to `n`.
pub open spec fn fed_packets(packets: Seq<Option<PacketModel>>, n: nat) -> ScanState
    decreases n,
{
    if n == 0 {
        initial()
    } else {
        let before = fed_packets(packets, (n - 1) as nat);
        match packets[n - 1] {
            Some(p) => fed(before, p),
            None => before,
        }
    }
}

/// The JPEG file of the packets.
pub open spec fn packets_jpeg(packets: Seq<Option<PacketModel>>) -> Seq<u8> {
    jpeg_of(fed_packets(packets, packets.len()))
}

/// The texts are equal but for the case of ASCII letters.
pub open spec fn same_ignoring_case(a: Seq<char>, b: Seq<char>) -> bool {
    a.len() == b.len() && forall|i: int|
        0 <= i < a.len() ==> lower_char(#[trigger] a[i]) == lower_char(b[i])
}

/// The packet that the filter lets pass, of a payload.
pub open spec fn accepted(filter: Option<Seq<char>>, payload: Seq<u8>) -> Option<PacketModel> {
    match ssdv_decoded(payload) {
        Ok(p) => if (filter matches Some(f) && !same_ignoring_case(p.callsign, f)) {
            None
        } else {
            Some(p)
        },
        Err(_) => None,
    }
}

/// The first image with that id, from `from` on.
pub open spec fn image_with_id(images: Seq<SsdvImageModel>, id: u8, from: int) -> Option<int>
    decreases images.len() - from,
{
    if from >= images.len() {
        None
    } else if images[from].image_id == id {
        Some(from)
    } else {
        image_with_id(images, id, from + 1)
    }
}

/// An image of which only the first packet's header is known.
pub open spec fn new_ssdv_image(p: PacketModel) -> SsdvImageModel {
    SsdvImageModel {
        image_id: p.image_id,
        width: p.width,
        height: p.height,
        kind: p.kind,
        packets: Seq::empty(),
        last: 0,
    }
}

/// The packets with one more; numbers that did not come yet are empty.
pub open spec fn with_packet(packets: Seq<Option<PacketModel>>, p: PacketModel) -> Seq<
    Option<PacketModel>,
> {
    let n = p.packet_id as int;
    Seq::new(
        if n >= packets.len() {
            (n + 1) as nat
        } else {
            packets.len()
        },
        |i: int|
            if i == n {
                Some(p)
            } else if i < packets.len() {
                packets[i]
            } else {
                None
            },
    )
}

/// The image after a packet: the geometry is that of the latest.
pub open spec fn ssdv_image_after(m: SsdvImageModel, p: PacketModel) -> SsdvImageModel {
    SsdvImageModel {
        image_id: m.image_id,
        width: p.width,
        height: p.height,
        kind: p.kind,
        packets: with_packet(m.packets, p),
        last: p.packet_id,
    }
}

/// The images after a payload, and what is returned for it.
pub open spec fn ssdv_step(
    filter: Option<Seq<char>>,
    images: Seq<SsdvImageModel>,
    payload: Seq<u8>,
) -> (Seq<SsdvImageModel>, Option<PacketUpdate>) {
    match accepted(filter, payload) {
        None => (images, None),
        Some(p) => {
            let known = image_with_id(images, p.image_id, 0);
            let opened = match known {
                Some(_) => images,
                None => images.push(new_ssdv_image(p)),
            };
            let at = match known {
                Some(i) => i,
                None => images.len() as int,
            };
            (
                opened.update(at, ssdv_image_after(opened[at], p)),
                Some(
                    PacketUpdate {
                        image_idx: at as u32,
                        offset: p.packet_id as u32,
                        bytes_written: p.payload.len() as usize,
                        chunk_idx: p.packet_id as u32,
                        fresh: !packet_slots(opened[at].packets).contains(p.packet_id as int),
                        started_new_image: known is None,
                    },
                ),
            )
        },
    }
}

/// The stream shows the SSDV image.
pub open spec fn shows_ssdv(stream: ImageStream, idx: int, m: SsdvImageModel) -> bool {
    &&& stream.image_idx == idx
    &&& stream.bytes@ == packets_jpeg(m.packets)
    &&& marks(stream.received_chunks@, packet_slots(m.packets))
    &&& stream.received_chunks@.len() == words_for(m.packets.len() as int)
    &&& stream.total_chunks == m.packets.len()
    &&& stream.received_count == packet_slots(m.packets).len()
    &&& stream.last_offset == m.last
    &&& stream.last_chunk_idx == m.last
}

/// A packet's view, if there is a packet.
pub open spec fn packet_view(p: Option<SsdvPacket>) -> Option<PacketModel> {
    match p {
        Some(q) => Some(q@),
        None => None,
    }
}

struct SsdvImageState {
    image_id: u8,
    width: u16,
    height: u16,
    packet_kind: SsdvPacketKind,
    packets: Vec<Option<SsdvPacket>>,
    received: Vec<u64>,
    received_count: u32,
    last_packet_id: u16,
}

impl SsdvImageState {
    spec fn view(&self) -> SsdvImageModel {
        SsdvImageModel {
            image_id: self.image_id,
            width: self.width,
            height: self.height,
            kind: self.packet_kind,
            packets: self.packets@.map_values(|p: Option<SsdvPacket>| packet_view(p)),
            last: self.last_packet_id,
        }
    }

    spec fn wf(&self) -> bool {
        &&& self.packets@.len() <= 0x1_0000
        &&& self.received@.len() == words_for(self.packets@.len() as int)
        &&& marks(self.received@, packet_slots(self@.packets))
        &&& self.received_count == packet_slots(self@.packets).len()
        &&& forall|i: int|
            0 <= i < self.packets@.len() ==> (#[trigger] self.packets@[i] matches Some(p)
                ==> p.raw@.len() == 256)
    }

    /// Make room for packet `id`.
    fn make_room(&mut self, id: usize)
        requires
            old(self).wf(),
            id < 0x1_0000,
        ensures
            final(self).wf(),
            final(self).packets@.len() > id,
            final(self).packets@.len() == if id >= old(self).packets@.len() {
                (id + 1) as nat
            } else {
                old(self).packets@.len()
            },
            final(self)@ == (SsdvImageModel { packets: final(self)@.packets, ..old(self)@ }),
            forall|i: int|
                0 <= i < final(self)@.packets.len() ==> #[trigger] final(self)@.packets[i] == if i
                    < old(self)@.packets.len() {
                    old(self)@.packets[i]
                } else {
                    None
                },
            packet_slots(final(self)@.packets) == packet_slots(old(self)@.packets),
    {
        if id < self.packets.len() {
            return;
        }
        let ghost slots = packet_slots(self@.packets);
        while self.packets.len() <= id
            invariant
                id < 0x1_0000,
                self.packets@.len() <= id + 1,
                old(self).packets@.len() <= self.packets@.len(),
                self.received == old(self).received,
                self.received_count == old(self).received_count,
                slots == packet_slots(old(self)@.packets),
                self@ == (SsdvImageModel { packets: self@.packets, ..old(self)@ }),
                forall|i: int|
                    0 <= i < self.packets@.len() ==> #[trigger] self.packets@[i] == if i < old(
                        self,
                    ).packets@.len() {
                        old(self).packets@[i]
                    } else {
                        None
                    },
            decreases id + 1 - self.packets.len(),
        {
            self.packets.push(None);
        }
        let words: usize = (id + 1) / 64 + if (id + 1) % 64 == 0 {
            0
        } else {
            1
        };
        assert(packet_slots(self@.packets) =~= slots);
        grow(&mut self.received, words, Ghost(slots));
    }

    /// Store a packet; whether its number is new.
    fn store(&mut self, packet: SsdvPacket) -> (fresh: bool)
        requires
            old(self).wf(),
            packet.raw@.len() == 256,
        ensures
            final(self).wf(),
            final(self)@ == ssdv_image_after(old(self)@, packet@),
            fresh == !packet_slots(old(self)@.packets).contains(packet.packet_id as int),
    {
        let id: usize = packet.packet_id as usize;
        self.width = packet.width;
        self.height = packet.height;
        self.packet_kind = packet.kind;
        self.last_packet_id = packet.packet_id;
        self.make_room(id);
        let ghost slots = packet_slots(self@.packets);
        let ghost before = self@.packets;
        let fresh: bool = mark(&mut self.received, id as u32, Ghost(slots));
        let ghost model = packet@;
        self.packets.set(id, Some(packet));
        proof {
            assert(self@.packets =~= before.update(id as int, Some(model)));
            assert(packet_slots(self@.packets) =~= slots.insert(id as int));
            lemma_slot_count(slots, before.len() as int);
            lemma_slot_count(packet_slots(self@.packets), before.len() as int);
            if !fresh {
                assert(slots.insert(id as int) =~= slots);
            }
        }
        if fresh {
            self.received_count = self.received_count + 1;
        }
        assert(self@ =~= ssdv_image_after(old(self)@, model));
        fresh
    }

    /// The JPEG file of the packets that came.
    fn build_jpeg(&self) -> (out: Vec<u8>)
        requires
            self.wf(),
        ensures
            out@ == packets_jpeg(self@.packets),
    {
        let mut builder = JpegBuilder::new();
        let n: usize = self.packets.len();
        let mut i: usize = 0;
        while i < n
            invariant
                n == self.packets@.len(),
                self.wf(),
                i <= n,
                builder.wf(),
                builder.packets_fed() <= i,
                builder@ == fed_packets(self@.packets, i as nat),
            decreases n - i,
        {
            assert(self@.packets[i as int] == packet_view(self.packets@[i as int]));
            match &self.packets[i] {
                Some(p) => {
                    builder.feed_packet(p);
                },
                None => {},
            }
            i = i + 1;
        }
        builder.finish()
    }

    fn snapshot(&self, image_idx: u32) -> (s: ImageStream)
        requires
            self.wf(),
        ensures
            shows_ssdv(s, image_idx as int, self@),
    {
        ImageStream {
            image_idx,
            bytes: self.build_jpeg(),
            received_chunks: copy_words(&self.received),
            total_chunks: self.packets.len() as u32,
            received_count: self.received_count,
            last_offset: self.last_packet_id as u32,
            last_chunk_idx: self.last_packet_id as u32,
        }
    }
}

fn equal_ignoring_case(a: &str, b: &str) -> (r: bool)
    ensures
        r == same_ignoring_case(a@, b@),
{
    let n: usize = a.unicode_len();
    if n != b.unicode_len() {
        return false;
    }
    let mut i: usize = 0;
    while i < n
        invariant
            n == a@.len(),
            n == b@.len(),
            i <= n,
            forall|j: int| 0 <= j < i ==> lower_char(#[trigger] a@[j]) == lower_char(b@[j]),
        decreases n - i,
    {
        if lower(a.get_char(i)) != lower(b.get_char(i)) {
            return false;
        }
        i = i + 1;
    }
    true
}

/// SSDV-protocol image reassembler.
///
/// Each `ingest` call expects a full 256-byte SSDV packet. Packets are bucketed
/// by `image_id`; within each bucket they slot by `packet_id`. The byte stream
/// produced by [`ImageReassembler::snapshot`] is a complete JPEG: SSDV's standard
/// JFIF header, quality-scaled DQT, fixed Huffman tables, SOF0 derived from the
/// packet's `width`/`height`/`mcu_mode`, SOS, and the SSDV bitstream re-coded
/// into differential-DC JPEG entropy data with byte stuffing applied. Missing
/// packets are filled with zero-valued DC + EOB AC codes.
pub struct SsdvImageReassembler {
    decoder: SsdvDecoder,
    callsign_filter: Option<String>,
    images: Vec<SsdvImageState>,
}

/// The text of an optional string.
pub open spec fn text_of(s: Option<String>) -> Option<Seq<char>> {
    match s {
        Some(t) => Some(t@),
        None => None,
    }
}

impl SsdvImageReassembler {
    /// The images so far.
    pub closed spec fn view(&self) -> Seq<SsdvImageModel> {
        self.images@.map_values(|s: SsdvImageState| s@)
    }

    /// The callsign that packets have to carry, if any.
    pub closed spec fn filter(&self) -> Option<Seq<char>> {
        text_of(self.callsign_filter)
    }

    /// Construct a reassembler. `callsign_filter`, when set, ignores packets
    /// whose decoded callsign does not match.
    pub fn new(callsign_filter: Option<String>) -> (r: Self)
        ensures
            r.ready(),
            r@ == Seq::<SsdvImageModel>::empty(),
            r.filter() == text_of(callsign_filter),
    {
        let r = SsdvImageReassembler {
            decoder: SsdvDecoder::new(),
            callsign_filter,
            images: Vec::new(),
        };
        assert(r@ =~= Seq::<SsdvImageModel>::empty());
        r
    }

    spec fn images_ok(&self) -> bool {
        forall|i: int| 0 <= i < self.images@.len() ==> (#[trigger] self.images@[i]).wf()
    }

    /// The image of a packet; a new one when its id was not seen.
    fn image_for(&mut self, packet: &SsdvPacket) -> (r: (usize, bool))
        requires
            old(self).images_ok(),
            old(self).images@.len() < u32::MAX,
        ensures
            final(self).images_ok(),
            final(self).filter() == old(self).filter(),
            r.0 < final(self).images@.len() <= u32::MAX,
            r.1 == (image_with_id(old(self)@, packet.image_id, 0) is None),
            r.1 ==> r.0 == old(self)@.len() && final(self)@ == old(self)@.push(
                new_ssdv_image(packet@),
            ),
            !r.1 ==> image_with_id(old(self)@, packet.image_id, 0) == Some(r.0 as int)
                && *final(self) == *old(self) && r.0 < old(self)@.len(),
    {
        let n: usize = self.images.len();
        let mut i: usize = 0;
        while i < n
            invariant
                n == self.images@.len(),
                n < u32::MAX,
                *self == *old(self),
                self.images_ok(),
                i <= n,
                image_with_id(self@, packet.image_id, 0) == image_with_id(
                    self@,
                    packet.image_id,
                    i as int,
                ),
            decreases n - i,
        {
            assert(self@[i as int].image_id == self.images@[i as int].image_id);
            if self.images[i].image_id == packet.image_id {
                return (i, false);
            }
            i = i + 1;
        }
        let state = SsdvImageState {
            image_id: packet.image_id,
            width: packet.width,
            height: packet.height,
            packet_kind: packet.kind,
            packets: Vec::new(),
            received: Vec::new(),
            received_count: 0,
            last_packet_id: 0,
        };
        proof {
            assert(packet_slots(state@.packets) =~= Set::empty());
            assert(state@ =~= new_ssdv_image(packet@));
        }
        self.images.push(state);
        assert(self@ =~= old(self)@.push(new_ssdv_image(packet@)));
        (n, true)
    }
}

impl ImageReassembler for SsdvImageReassembler {
    closed spec fn ready(&self) -> bool {
        self.images_ok() && self.images@.len() <= u32::MAX
    }

    open spec fn image_count(&self) -> nat {
        self@.len()
    }

    fn ingest(&mut self, payload: &[u8]) -> (r: Option<PacketUpdate>)
        ensures
            (final(self)@, r) == ssdv_step(old(self).filter(), old(self)@, payload@),
            final(self).filter() == old(self).filter(),
    {
        let packet: SsdvPacket = match self.decoder.decode(payload) {
            Ok(packet) => packet,
            Err(_) => {
                return None;
            },
        };
        match &self.callsign_filter {
            Some(filter) => {
                if !equal_ignoring_case(packet.callsign.as_str(), filter.as_str()) {
                    return None;
                }
            },
            None => {},
        }
        let ghost p = packet@;
        assert(accepted(self.filter(), payload@) == Some(p));
        let (idx, started) = self.image_for(&packet);
        let ghost opened = self@;
        let ghost states = self.images@;
        assert(opened[idx as int] == states[idx as int]@);
        let id: u16 = packet.packet_id;
        let payload_len: usize = packet.payload.len();
        assert(packet.raw@.len() == 256);
        let mut state: SsdvImageState = self.images.remove(idx);
        let fresh: bool = state.store(packet);
        let ghost stored = state@;
        self.images.insert(idx, state);
        assert(self.images@ =~= states.update(idx as int, self.images@[idx as int]));
        assert(self@ =~= opened.update(idx as int, stored));
        assert(self.images@.len() == self@.len());
        Some(
            PacketUpdate {
                image_idx: idx as u32,
                offset: id as u32,
                bytes_written: payload_len,
                chunk_idx: id as u32,
                fresh,
                started_new_image: started,
            },
        )
    }

    fn snapshot(&self) -> (s: ImageSnapshot)
        ensures
            s.decoder == ImageDecoder::Jpeg,
            s.pixel_format == PixelFormat::Gray8,
            self@.len() > 0 ==> s.width == self@[0].width && s.height == self@[0].height
                && s.chunk_bytes == payload_size(self@[0].kind),
            self@.len() == 0 ==> s.width == 0 && s.height == 0 && s.chunk_bytes == 205,
            forall|i: int|
                0 <= i < self@.len() ==> shows_ssdv(#[trigger] s.images@[i], i, self@[i]),
    {
        let mut images: Vec<ImageStream> = Vec::new();
        let n: usize = self.images.len();
        let mut i: usize = 0;
        while i < n
            invariant
                n == self.images@.len(),
                n <= u32::MAX,
                self.images_ok(),
                i <= n,
                images@.len() == i,
                forall|j: int| 0 <= j < i ==> shows_ssdv(#[trigger] images@[j], j, self@[j]),
            decreases n - i,
        {
            assert(self.images@[i as int].wf());
            let stream: ImageStream = self.images[i].snapshot(i as u32);
            images.push(stream);
            i = i + 1;
        }
        if n > 0 {
            let first = &self.images[0];
            assert(self@[0] == first@);
            ImageSnapshot {
                decoder: ImageDecoder::Jpeg,
                width: first.width as u32,
                height: first.height as u32,
                pixel_format: PixelFormat::Gray8,
                chunk_bytes: first.packet_kind.payload_len() as u32,
                images,
            }
        } else {
            ImageSnapshot {
                decoder: ImageDecoder::Jpeg,
                width: 0,
                height: 0,
                pixel_format: PixelFormat::Gray8,
                chunk_bytes: SsdvPacketKind::WithFec.payload_len() as u32,
                images,
            }
        }
    }

    fn reset(&mut self)
        ensures
            final(self).filter() == old(self).filter(),
    {
        self.images = Vec::new();
    }
}

/// A reassembler for one of the protocols.
pub enum Reassembler {
    Geoscan(GeoscanImageReassembler),
    Ssdv(SsdvImageReassembler),
}

impl ImageReassembler for Reassembler {
    open spec fn ready(&self) -> bool {
        match self {
            Reassembler::Geoscan(r) => r.ready(),
            Reassembler::Ssdv(r) => r.ready(),
        }
    }

    open spec fn image_count(&self) -> nat {
        match self {
            Reassembler::Geoscan(r) => r.image_count(),
            Reassembler::Ssdv(r) => r.image_count(),
        }
    }

    fn ingest(&mut self, payload: &[u8]) -> (r: Option<PacketUpdate>)
        ensures
            match *old(self) {
                Reassembler::Geoscan(before) => *final(self) matches Reassembler::Geoscan(after)
                    && (after@, r) == geoscan_step(before.layout(), before@, payload@)
                    && after.layout() == before.layout(),
                Reassembler::Ssdv(before) => *final(self) matches Reassembler::Ssdv(after) && (
                after@,
                r,
                ) == ssdv_step(before.filter(), before@, payload@) && after.filter()
                    == before.filter(),
            },
    {
        match self {
            Reassembler::Geoscan(r) => r.ingest(payload),
            Reassembler::Ssdv(r) => r.ingest(payload),
        }
    }

    fn snapshot(&self) -> (s: ImageSnapshot)
        ensures
            match *self {
                Reassembler::Geoscan(r) => {
                    &&& s.decoder == r.layout().decoder
                    &&& s.width == r.layout().width
                    &&& s.height == r.layout().height
                    &&& s.pixel_format == r.layout().pixel_format
                    &&& s.chunk_bytes == r.layout().chunk_bytes as u32
                    &&& forall|i: int|
                        0 <= i < r@.len() ==> shows(#[trigger] s.images@[i], i, r@[i])
                    &&& forall|i: int|
                        0 <= i < r@.len() ==> stream_sound(
                            #[trigger] s.images@[i],
                            r.layout().chunk_bytes,
                        )
                },
                Reassembler::Ssdv(r) => {
                    &&& s.decoder == ImageDecoder::Jpeg
                    &&& s.pixel_format == PixelFormat::Gray8
                    &&& r@.len() > 0 ==> s.width == r@[0].width && s.height == r@[0].height
                        && s.chunk_bytes == payload_size(r@[0].kind)
                    &&& r@.len() == 0 ==> s.width == 0 && s.height == 0 && s.chunk_bytes == 205
                    &&& forall|i: int|
                        0 <= i < r@.len() ==> shows_ssdv(#[trigger] s.images@[i], i, r@[i])
                },
            },
    {
        match self {
            Reassembler::Geoscan(r) => r.snapshot(),
            Reassembler::Ssdv(r) => r.snapshot(),
        }
    }

    fn reset(&mut self)
        ensures
            match *old(self) {
                Reassembler::Geoscan(before) => *final(self) matches Reassembler::Geoscan(after)
                    && after.layout() == before.layout(),
                Reassembler::Ssdv(before) => *final(self) matches Reassembler::Ssdv(after)
                    && after.filter() == before.filter(),
            },
    {
        match self {
            Reassembler::Geoscan(r) => r.reset(),
            Reassembler::Ssdv(r) => r.reset(),
        }
    }
}

/// What is wrong with the length of the offset field.
pub open spec fn length_fault(len: usize) -> Option<Seq<char>> {
    if len == 0 {
        Some("image.offset_field.len must be > 0"@)
    } else if len > 4 {
        Some("image.offset_field.len = "@ + decimal(len as nat) + " out of range 1..=4"@)
    } else {
        None
    }
}

/// The field shares bytes with the chunk.
pub open spec fn overlaps(field: ImageField, chunk_at: usize, chunk_bytes: usize) -> bool {
    field.at < chunk_at + chunk_bytes && chunk_at < field.at + field.len
}

/// What is wrong with an image definition.
pub open spec fn image_fault(def: ImageDef) -> Option<Seq<char>> {
    match def {
        ImageDef::Geoscan {
            header_signature,
            offset_field,
            chunk_at,
            chunk_bytes,
            decoder,
            width,
            height,
            pixel_format,
        } => match hex_result(header_signature@) {
            Err(e) => Some("image.header_signature: "@ + e),
            Ok(_) => if length_fault(offset_field.len) is Some {
                length_fault(offset_field.len)
            } else if chunk_bytes == 0 {
                Some("image.chunk_bytes must be > 0"@)
            } else if hex_result(header_signature@)->Ok_0.len() > chunk_at {
                Some("image.header_signature overlaps the chunk"@)
            } else if overlaps(offset_field, chunk_at, chunk_bytes) {
                Some("image.offset_field overlaps the chunk"@)
            } else if decoder == ImageDecoderDef::Raw && (width == 0 || height == 0) {
                Some("image.width / image.height must be > 0 when decoder = \"raw\""@)
            } else {
                None
            },
        },
        ImageDef::Ssdv { .. } => None,
        ImageDef::Sstv {  } => Some(
            "image.protocol = \"sstv\" is decoded by SstvAnalyzer, not by build_image_reassembler"@,
        ),
    }
}

/// The reassembler is the one that the definition describes, and has no images.
pub open spec fn builds(def: ImageDef, r: Reassembler) -> bool {
    match def {
        ImageDef::Geoscan {
            header_signature,
            offset_field,
            chunk_at,
            chunk_bytes,
            decoder,
            width,
            height,
            pixel_format,
        } => {
            &&& r matches Reassembler::Geoscan(g)
            &&& g@.len() == 0
            &&& g.layout().header == hex_result(header_signature@)->Ok_0
            &&& g.layout().offset_field == offset_field
            &&& g.layout().chunk_at == chunk_at
            &&& g.layout().chunk_bytes == chunk_bytes
            &&& g.layout().decoder == match decoder {
                ImageDecoderDef::Jpeg => ImageDecoder::Jpeg,
                ImageDecoderDef::Raw => ImageDecoder::Raw,
            }
            &&& g.layout().width == width
            &&& g.layout().height == height
            &&& g.layout().pixel_format == match pixel_format {
                PixelFormatDef::Gray8 => PixelFormat::Gray8,
                PixelFormatDef::Rgb565 => PixelFormat::Rgb565,
                PixelFormatDef::Rgb888 => PixelFormat::Rgb888,
            }
        },
        ImageDef::Ssdv { callsign } => {
            &&& r matches Reassembler::Ssdv(s)
            &&& s@.len() == 0
            &&& s.filter() == text_of(callsign)
        },
        ImageDef::Sstv {  } => false,
    }
}

fn validate_field(field: &ImageField) -> (r: Result<(), String>)
    ensures
        match length_fault(field.len) {
            Some(m) => r matches Err(e) && e@ == m,
            None => r is Ok,
        },
{
    if field.len == 0 {
        return Err("image.offset_field.len must be > 0".to_string());
    }
    if field.len > 4 {
        return Err(
            "image.offset_field.len = ".to_string().concat(
                decimal_string(field.len as u64).as_str(),
            ).concat(" out of range 1..=4"),
        );
    }
    Ok(())
}

/// Build a reassembler from a satellite definition.
///
/// Validates the hex `header_signature`, byte-offset ranges, and chunk geometry
/// so a misconfigured downlink is rejected up-front instead of producing garbage
/// at runtime.
///
/// # Errors
///
/// Returns a human-readable `String` if the definition is structurally invalid
/// (bad hex, fields overlapping the chunk, zero-area canvas, etc.).
pub fn build(def: &ImageDef) -> (res: Result<Reassembler, String>)
    ensures
        match image_fault(*def) {
            Some(m) => res matches Err(e) && e@ == m,
            None => res matches Ok(r) && r.ready() && builds(*def, r),
        },
{
    match def {
        ImageDef::Geoscan {
            header_signature,
            offset_field,
            chunk_at,
            chunk_bytes,
            decoder,
            width,
            height,
            pixel_format,
        } => {
            let header: Vec<u8> = match parse_hex(header_signature.as_str()) {
                Ok(header) => header,
                Err(e) => {
                    return Err("image.header_signature: ".to_string().concat(e.as_str()));
                },
            };
            match validate_field(offset_field) {
                Ok(()) => {},
                Err(e) => {
                    return Err(e);
                },
            }
            if *chunk_bytes == 0 {
                return Err("image.chunk_bytes must be > 0".to_string());
            }
            if header.len() > *chunk_at {
                return Err("image.header_signature overlaps the chunk".to_string());
            }
            let overlap: bool = if offset_field.at <= *chunk_at {
                *chunk_at - offset_field.at < offset_field.len
            } else {
                offset_field.at - *chunk_at < *chunk_bytes
            };
            if overlap {
                return Err("image.offset_field overlaps the chunk".to_string());
            }
            let decoder: ImageDecoder = ImageDecoder::from(*decoder);
            if decoder == ImageDecoder::Raw && (*width == 0 || *height == 0) {
                return Err(
                    "image.width / image.height must be > 0 when decoder = \"raw\"".to_string(),
                );
            }
            let r = GeoscanImageReassembler {
                header,
                offset_field: *offset_field,
                chunk_at: *chunk_at,
                chunk_bytes: *chunk_bytes,
                decoder,
                width: *width,
                height: *height,
                pixel_format: PixelFormat::from(*pixel_format),
                images: Vec::new(),
            };
            Ok(Reassembler::Geoscan(r))
        },
        ImageDef::Ssdv { callsign } => {
            let filter: Option<String> = match callsign {
                Some(c) => Some(c.clone()),
                None => None,
            };
            Ok(Reassembler::Ssdv(SsdvImageReassembler::new(filter)))
        },
        ImageDef::Sstv {  } => Err(
            "image.protocol = \"sstv\" is decoded by SstvAnalyzer, not by build_image_reassembler".to_string(),
        ),
    }
}

/// Whatever comes, earlier images stay as they are: only the last one changes,
/// and at most one is added.
pub proof fn law_earlier_images_stay(
    l: GeoscanLayout,
    images: Seq<ImageModel>,
    payload: Seq<u8>,
    i: int,
)
    requires
        0 <= i < images.len() - 1,
    ensures
        geoscan_step(l, images, payload).0.len() >= images.len(),
        geoscan_step(l, images, payload).0.len() <= images.len() + 1,
        geoscan_step(l, images, payload).0[i] == images[i],
{
}

/// A chunk is found where it was written, in its slot, and nothing outside it
/// changes.
pub proof fn law_chunk_is_read_back(m: ImageModel, offset: int, chunk: Seq<u8>)
    requires
        0 <= offset,
        chunk.len() > 0,
    ensures
        with_chunk(m, offset, chunk).bytes.subrange(offset, offset + chunk.len()) == chunk,
        with_chunk(m, offset, chunk).slots.contains(offset / chunk.len() as int),
        forall|i: int|
            0 <= i < m.bytes.len() && !(offset <= i < offset + chunk.len()) ==> #[trigger] with_chunk(
                m,
                offset,
                chunk,
            ).bytes[i] == m.bytes[i],
{
    assert(with_chunk(m, offset, chunk).bytes.subrange(offset, offset + chunk.len()) =~= chunk);
}

/// The order in which two chunks of different places come makes no difference to
/// the bytes and the slots.
pub proof fn law_order_does_not_matter(
    m: ImageModel,
    a: int,
    chunk_a: Seq<u8>,
    b: int,
    chunk_b: Seq<u8>,
)
    requires
        0 <= a,
        0 <= b,
        chunk_a.len() > 0,
        chunk_a.len() == chunk_b.len(),
        a + chunk_a.len() <= b || b + chunk_b.len() <= a,
    ensures
        ({
            let ab = with_chunk(with_chunk(m, a, chunk_a), b, chunk_b);
            let ba = with_chunk(with_chunk(m, b, chunk_b), a, chunk_a);
            ab.bytes == ba.bytes && ab.slots == ba.slots && ab.total == ba.total
        }),
{
    let ab = with_chunk(with_chunk(m, a, chunk_a), b, chunk_b);
    let ba = with_chunk(with_chunk(m, b, chunk_b), a, chunk_a);
    assert(ab.bytes =~= ba.bytes);
    assert(ab.slots =~= ba.slots);
}

/// The slots stay within the stream, so the count of chunks received is never
/// above the total.
pub proof fn law_received_within_total(m: ImageModel, offset: int, chunk: Seq<u8>)
    requires
        0 <= offset,
        chunk.len() > 0,
        forall|i: int| #[trigger] m.slots.contains(i) ==> 0 <= i < m.total,
    ensures
        forall|i: int|
            #[trigger] with_chunk(m, offset, chunk).slots.contains(i) ==> 0 <= i < with_chunk(
                m,
                offset,
                chunk,
            ).total,
        with_chunk(m, offset, chunk).slots.len() <= with_chunk(m, offset, chunk).total,
{
    lemma_slot_below(offset, chunk.len() as int);
    lemma_slot_count(
        with_chunk(m, offset, chunk).slots,
        with_chunk(m, offset, chunk).total as int,
    );
}

/// A JPEG stream needs its SOI: before one came, no chunk opens an image.
pub proof fn law_no_image_before_soi(
    l: GeoscanLayout,
    images: Seq<ImageModel>,
    payload: Seq<u8>,
)
    requires
        l.decoder == ImageDecoder::Jpeg,
        images.len() == 0,
        geoscan_step(l, images, payload).0.len() > 0,
        l.chunk_bytes > 0,
        l.chunk_at >= 0,
    ensures
        chunk_offset(l, payload) == Some(0nat),
        payload[l.chunk_at] == 0xFF,
        payload[l.chunk_at + 1] == 0xD8,
{
    let chunk = payload.subrange(l.chunk_at, l.chunk_at + l.chunk_bytes);
    assert(chunk[0] == payload[l.chunk_at] && chunk[1] == payload[l.chunk_at + 1]);
}

/// Packets of one SSDV image go to one stream, whatever else came between.
pub proof fn law_image_id_keeps_its_stream(
    filter: Option<Seq<char>>,
    images: Seq<SsdvImageModel>,
    payload: Seq<u8>,
    id: u8,
)
    ensures
        image_with_id(images, id, 0) is Some ==> image_with_id(
            ssdv_step(filter, images, payload).0,
            id,
            0,
        ) == image_with_id(images, id, 0),
{
    let after = ssdv_step(filter, images, payload).0;
    if let Some(p) = accepted(filter, payload) {
        lemma_image_with_id(images, p.image_id, 0);
        lemma_same_ids(images, after, id, 0);
    }
}

proof fn lemma_image_with_id(images: Seq<SsdvImageModel>, id: u8, from: int)
    requires
        0 <= from,
    ensures
        image_with_id(images, id, from) matches Some(i) ==> from <= i < images.len()
            && images[i].image_id == id,
    decreases images.len() - from,
{
    if from < images.len() && images[from].image_id != id {
        lemma_image_with_id(images, id, from + 1);
    }
}

proof fn lemma_same_ids(
    images: Seq<SsdvImageModel>,
    after: Seq<SsdvImageModel>,
    id: u8,
    from: int,
)
    requires
        0 <= from,
        images.len() <= after.len(),
        forall|i: int|
            0 <= i < images.len() ==> (#[trigger] after[i]).image_id == images[i].image_id,
    ensures
        image_with_id(images, id, from) is Some ==> image_with_id(after, id, from)
            == image_with_id(images, id, from),
    decreases images.len() - from,
{
    if from < images.len() {
        assert(after[from].image_id == images[from].image_id);
        lemma_same_ids(images, after, id, from + 1);
    }
}

/// The image after chunks of `data` came, each of `cb` bytes, by their numbers.
pub open spec fn after_chunks(m: ImageModel, data: Seq<u8>, cb: int, order: Seq<int>) -> ImageModel
    decreases order.len(),
{
    if order.len() == 0 {
        m
    } else {
        let k = order.last();
        with_chunk(
            after_chunks(m, data, cb, order.drop_last()),
            k * cb,
            data.subrange(k * cb, k * cb + cb),
        )
    }
}

proof fn lemma_chunk_place(cb: int, k: int, count: int)
    requires
        cb > 0,
        0 <= k < count,
    ensures
        0 <= k * cb,
        k * cb + cb <= count * cb,
        (k + 1) * cb == k * cb + cb,
        (k * cb) / cb == k,
        slots_for(k * cb + cb, cb) == k + 1,
        forall|i: int| k * cb <= i < k * cb + cb ==> #[trigger] (i / cb) == k,
{
    assert(k * cb + cb <= count * cb && 0 <= k * cb && (k + 1) * cb == k * cb + cb)
        by (nonlinear_arith)
        requires
            0 <= k,
            k + 1 <= count,
            cb > 0,
    ;
    assert forall|i: int| k * cb <= i < k * cb + cb implies #[trigger] (i / cb) == k by {
        vstd::arithmetic::div_mod::lemma_fundamental_div_mod_converse(i, cb, k, i - k * cb);
    }
    assert((k * cb) / cb == k);
    assert(slots_for(k * cb + cb, cb) == k + 1) by {
        vstd::arithmetic::div_mod::lemma_fundamental_div_mod_converse(
            k * cb + cb + cb - 1,
            cb,
            k + 1,
            cb - 1,
        );
    }
}

proof fn lemma_after_chunks(data: Seq<u8>, cb: int, order: Seq<int>, count: int)
    requires
        cb > 0,
        data.len() == count * cb,
        forall|i: int| 0 <= i < order.len() ==> 0 <= #[trigger] order[i] < count,
    ensures
        ({
            let m = after_chunks(blank_image(), data, cb, order);
            &&& m.bytes.len() <= data.len()
            &&& m.total <= count || order.len() == 0
            &&& forall|k: int| #[trigger] m.slots.contains(k) <==> order.contains(k)
            &&& forall|k: int|
                #[trigger] order.contains(k) ==> (k + 1) * cb <= m.bytes.len() && k < m.total
            &&& forall|i: int|
                0 <= i < m.bytes.len() && order.contains(i / cb) ==> #[trigger] m.bytes[i]
                    == data[i]
        }),
    decreases order.len(),
{
    if order.len() > 0 {
        let before = order.drop_last();
        let k = order.last();
        let old_m = after_chunks(blank_image(), data, cb, before);
        let m = after_chunks(blank_image(), data, cb, order);
        lemma_after_chunks(data, cb, before, count);
        lemma_chunk_place(cb, k, count);
        assert forall|j: int| order.contains(j) <==> before.contains(j) || j == k by {
            if order.contains(j) {
                let i = choose|i: int| 0 <= i < order.len() && order[i] == j;
                if i < before.len() {
                    assert(before[i] == j);
                }
            }
            if before.contains(j) {
                let i = choose|i: int| 0 <= i < before.len() && before[i] == j;
                assert(order[i] == j);
            }
            assert(order[order.len() - 1] == k);
        }
        assert forall|i: int| 0 <= i < m.bytes.len() && order.contains(i / cb) implies #[trigger] m.bytes[i]
            == data[i] by {
            if !(k * cb <= i < k * cb + cb) {
                let j = i / cb;
                if j == k {
                    vstd::arithmetic::div_mod::lemma_fundamental_div_mod(i, cb);
                    vstd::arithmetic::div_mod::lemma_mod_bound(i, cb);
                    assert(k * cb == cb * k) by (nonlinear_arith);
                }
                assert(before.contains(j));
                vstd::arithmetic::div_mod::lemma_fundamental_div_mod(i, cb);
                vstd::arithmetic::div_mod::lemma_mod_bound(i, cb);
                assert((j + 1) * cb == cb * j + cb) by (nonlinear_arith);
                assert(i < old_m.bytes.len());
                assert(old_m.bytes[i] == data[i]);
            }
        }
    }
}

/// Once all chunks of an image have come, in whatever order and however often, the
/// image is there byte for byte, and every slot counts as received.
pub proof fn law_all_chunks_rebuild_the_image(
    data: Seq<u8>,
    cb: int,
    order: Seq<int>,
    count: int,
)
    requires
        cb > 0,
        count > 0,
        data.len() == count * cb,
        forall|i: int| 0 <= i < order.len() ==> 0 <= #[trigger] order[i] < count,
        forall|k: int| 0 <= k < count ==> #[trigger] order.contains(k),
    ensures
        after_chunks(blank_image(), data, cb, order).bytes == data,
        after_chunks(blank_image(), data, cb, order).total == count,
        after_chunks(blank_image(), data, cb, order).slots.len() == count,
{
    let m = after_chunks(blank_image(), data, cb, order);
    lemma_after_chunks(data, cb, order, count);
    assert(order.contains(count - 1));
    assert(m.bytes.len() == data.len());
    assert forall|i: int| 0 <= i < data.len() implies m.bytes[i] == data[i] by {
        vstd::arithmetic::div_mod::lemma_fundamental_div_mod(i, cb);
        vstd::arithmetic::div_mod::lemma_mod_bound(i, cb);
        let j = i / cb;
        assert(0 <= j < count) by (nonlinear_arith)
            requires
                i == cb * j + i % cb,
                0 <= i % cb < cb,
                0 <= i < count * cb,
                cb > 0,
        ;
        assert(order.contains(j));
    }
    assert(m.bytes =~= data);
    let all = vstd::set_lib::set_int_range(0, count);
    assert forall|k: int| m.slots.contains(k) <==> all.contains(k) by {
        if m.slots.contains(k) {
            assert(order.contains(k));
            let i = choose|i: int| 0 <= i < order.len() && order[i] == k;
            assert(0 <= order[i] < count);
        }
    }
    assert(m.slots =~= all);
    vstd::set_lib::lemma_int_range(0, count);
}

} // verus!
