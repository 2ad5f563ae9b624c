//! Turning a reassembled image into pixels, and into files for export.
//!
//! Raw streams are mapped pixel by pixel by the image's pixel format. JPEG
//! streams are handed to a decoder, in up to three shapes that tolerate a stream
//! that is still being received; where none of them decodes, the bytes
//! themselves are shown, one chunk per row.
use vstd::prelude::*;
use vstd::string::StringExecFns;
use crate::bitmap::bit_at;
use crate::image::{ImageDecoder, ImageSnapshot, ImageStream, PixelFormat};
use crate::jpeg_frames::{countable, is_countable};
use crate::slices::copy_range;
use crate::text::{decimal, decimal_string};

verus! {

/// One pixel.
#[derive(Debug, Clone, Copy, PartialEq, Eq, Structural)]
pub struct Rgb {
    /// Red.
    pub r: u8,
    /// Green.
    pub g: u8,
    /// Blue.
    pub b: u8,
}

/// A picture, row by row from the top, each row from the left.
#[derive(Debug)]
pub struct Canvas {
    /// Pixels per row.
    pub width: u32,
    /// Number of rows.
    pub height: u32,
    /// All pixels; the one at column `x` of row `y` has index `y * width + x`.
    pub pixels: Vec<Rgb>,
}

/// The contents of a canvas.
#[verifier::ext_equal]
pub struct CanvasModel {
    /// Pixels per row.
    pub width: nat,
    /// Number of rows.
    pub height: nat,
    /// All pixels in row order.
    pub pixels: Seq<Rgb>,
}

impl View for Canvas {
    type V = CanvasModel;

    open spec fn view(&self) -> CanvasModel {
        CanvasModel {
            width: self.width as nat,
            height: self.height as nat,
            pixels: self.pixels@,
        }
    }
}

/// How the pixels of an image were obtained.
#[derive(Debug, Clone, Copy, PartialEq, Eq, Structural)]
pub enum ImageRenderKind {
    /// The decoder accepted the stream, or a terminated part of it.
    JpegDecoded,
    /// The decoder accepted nothing; the bytes are shown as grey rows.
    JpegBytesPreview,
    /// The pixels were mapped straight from the bytes.
    Raw,
}

/// A pixel with all three colours at `v`.
pub open spec fn gray(v: u8) -> Rgb {
    Rgb { r: v, g: v, b: v }
}

/// A five-bit intensity widened to eight bits by repeating its top bits.
pub open spec fn widen5(v: int) -> u8 {
    (v * 8 + v / 4) as u8
}

/// A six-bit intensity widened to eight bits by repeating its top bits.
pub open spec fn widen6(v: int) -> u8 {
    (v * 4 + v / 16) as u8
}

/// The pixel of a big-endian RGB565 pair.
pub open spec fn rgb565(hi: u8, lo: u8) -> Rgb {
    let v = hi * 256 + lo;
    Rgb { r: widen5(v / 2048), g: widen6(v / 32 % 64), b: widen5(v % 32) }
}

/// Pixel `k` of a raw stream; black where the stream does not hold all of it.
pub open spec fn raw_pixel(format: PixelFormat, bytes: Seq<u8>, k: int) -> Rgb {
    match format {
        PixelFormat::Gray8 => if k < bytes.len() {
            gray(bytes[k])
        } else {
            gray(0)
        },
        PixelFormat::Rgb565 => if 2 * k + 1 < bytes.len() {
            rgb565(bytes[2 * k], bytes[2 * k + 1])
        } else {
            gray(0)
        },
        PixelFormat::Rgb888 => if 3 * k + 2 < bytes.len() {
            Rgb { r: bytes[3 * k], g: bytes[3 * k + 1], b: bytes[3 * k + 2] }
        } else {
            gray(0)
        },
    }
}

/// The canvas of a raw stream.
pub open spec fn raw_canvas(
    width: nat,
    height: nat,
    format: PixelFormat,
    bytes: Seq<u8>,
) -> CanvasModel {
    CanvasModel {
        width,
        height,
        pixels: Seq::new(width * height, |k: int| raw_pixel(format, bytes, k)),
    }
}

fn gray_pixel(v: u8) -> (p: Rgb)
    ensures
        p == gray(v),
{
    Rgb { r: v, g: v, b: v }
}

fn rgb565_pixel(hi: u8, lo: u8) -> (p: Rgb)
    ensures
        p == rgb565(hi, lo),
{
    let v: u32 = hi as u32 * 256 + lo as u32;
    let r: u32 = v / 2048;
    let g: u32 = v / 32 % 64;
    let b: u32 = v % 32;
    Rgb { r: (r * 8 + r / 4) as u8, g: (g * 4 + g / 16) as u8, b: (b * 8 + b / 4) as u8 }
}

fn pixel_of(format: PixelFormat, bytes: &Vec<u8>, k: usize) -> (p: Rgb)
    ensures
        p == raw_pixel(format, bytes@, k as int),
{
    match format {
        PixelFormat::Gray8 => {
            if k < bytes.len() {
                gray_pixel(bytes[k])
            } else {
                gray_pixel(0)
            }
        },
        PixelFormat::Rgb565 => {
            if k < bytes.len() / 2 {
                rgb565_pixel(bytes[2 * k], bytes[2 * k + 1])
            } else {
                gray_pixel(0)
            }
        },
        PixelFormat::Rgb888 => {
            if k < bytes.len() / 3 {
                Rgb { r: bytes[3 * k], g: bytes[3 * k + 1], b: bytes[3 * k + 2] }
            } else {
                gray_pixel(0)
            }
        },
    }
}

fn mapped(format: PixelFormat, bytes: &Vec<u8>, count: usize) -> (pixels: Vec<Rgb>)
    ensures
        pixels@ == Seq::new(count as nat, |k: int| raw_pixel(format, bytes@, k)),
{
    let mut pixels: Vec<Rgb> = Vec::new();
    let mut k: usize = 0;
    while k < count
        invariant
            k <= count,
            pixels@ == Seq::new(k as nat, |j: int| raw_pixel(format, bytes@, j)),
        decreases count - k,
    {
        pixels.push(pixel_of(format, bytes, k));
        k = k + 1;
        assert(pixels@ =~= Seq::new(k as nat, |j: int| raw_pixel(format, bytes@, j)));
    }
    pixels
}

/// Map a raw stream to pixels. RGB565 is read big-endian; for `Gray8` each byte
/// becomes a pixel with three equal colours.
pub fn render_image_raw(snapshot: &ImageSnapshot, stream: &ImageStream) -> (canvas: Canvas)
    requires
        snapshot.width * snapshot.height <= usize::MAX,
    ensures
        canvas@ == raw_canvas(
            snapshot.width as nat,
            snapshot.height as nat,
            snapshot.pixel_format,
            stream.bytes@,
        ),
{
    let count: usize = snapshot.width as usize * snapshot.height as usize;
    Canvas {
        width: snapshot.width,
        height: snapshot.height,
        pixels: mapped(snapshot.pixel_format, &stream.bytes, count),
    }
}

/// The larger of a count and one.
pub open spec fn at_least_one(n: u32) -> nat {
    if n == 0 {
        1
    } else {
        n as nat
    }
}

/// The colour of a place in a missing row: two greys in squares of four by four.
pub open spec fn checker(col: int, row: int) -> Rgb {
    if col / 4 % 2 == row / 4 % 2 {
        Rgb { r: 36, g: 38, b: 42 }
    } else {
        Rgb { r: 60, g: 62, b: 68 }
    }
}

/// Pixel `k` of the byte preview with rows of `chunk` pixels.
pub open spec fn preview_pixel(chunk: nat, words: Seq<u64>, bytes: Seq<u8>, k: int) -> Rgb {
    let row = k / chunk as int;
    if bit_at(words, row) {
        if k < bytes.len() {
            gray(bytes[k])
        } else {
            gray(0)
        }
    } else {
        checker(k % chunk as int, row)
    }
}

/// The byte preview of a stream: one row per chunk slot.
pub open spec fn preview_canvas(chunk_bytes: u32, stream: ImageStream) -> CanvasModel {
    let chunk = at_least_one(chunk_bytes);
    let total = at_least_one(stream.total_chunks);
    CanvasModel {
        width: chunk,
        height: total,
        pixels: Seq::new(
            total * chunk,
            |k: int| preview_pixel(chunk, stream.received_chunks@, stream.bytes@, k),
        ),
    }
}

/// Show the reassembled chunks as grey rows: the width is the chunk size, the
/// height the number of chunk slots. Rows of received chunks show their bytes;
/// rows of missing chunks show a checkerboard. The picture is at least one pixel
/// wide and high.
pub fn render_jpeg_bytes_as_grayscale(snapshot: &ImageSnapshot, stream: &ImageStream) -> (canvas:
    Canvas)
    requires
        at_least_one(snapshot.chunk_bytes) * at_least_one(stream.total_chunks) <= usize::MAX,
    ensures
        canvas@ == preview_canvas(snapshot.chunk_bytes, *stream),
{
    let width: u32 = if snapshot.chunk_bytes == 0 { 1 } else { snapshot.chunk_bytes };
    let height: u32 = if stream.total_chunks == 0 { 1 } else { stream.total_chunks };
    let ghost chunk = width as nat;
    let ghost words = stream.received_chunks@;
    let ghost bytes = stream.bytes@;
    proof {
        assert(height * width == width * height) by (nonlinear_arith);
    }
    let mut pixels: Vec<Rgb> = Vec::new();
    let mut k: usize = 0;
    let mut row: u32 = 0;
    while row < height
        invariant
            row <= height,
            width > 0,
            chunk == width,
            words == stream.received_chunks@,
            bytes == stream.bytes@,
            height * width <= usize::MAX,
            k == row * width,
            pixels@ == Seq::new(k as nat, |j: int| preview_pixel(chunk, words, bytes, j)),
        decreases height - row,
    {
        let received: bool = stream.chunk_received(row);
        let mut col: u32 = 0;
        proof {
            assert((row + 1) * width == row * width + width) by (nonlinear_arith);
            assert((row + 1) * width <= height * width) by (nonlinear_arith)
                requires
                    row + 1 <= height,
            ;
        }
        while col < width
            invariant
                row < height,
                col <= width,
                width > 0,
                chunk == width,
                words == stream.received_chunks@,
                bytes == stream.bytes@,
                received == bit_at(words, row as int),
                row * width + width <= usize::MAX,
                k == row * width + col,
                pixels@ == Seq::new(k as nat, |j: int| preview_pixel(chunk, words, bytes, j)),
            decreases width - col,
        {
            proof {
                vstd::arithmetic::div_mod::lemma_fundamental_div_mod_converse(
                    k as int,
                    width as int,
                    row as int,
                    col as int,
                );
            }
            let color: Rgb = if received {
                if k < stream.bytes.len() {
                    gray_pixel(stream.bytes[k])
                } else {
                    gray_pixel(0)
                }
            } else if col / 4 % 2 == row / 4 % 2 {
                Rgb { r: 36, g: 38, b: 42 }
            } else {
                Rgb { r: 60, g: 62, b: 68 }
            };
            pixels.push(color);
            k = k + 1;
            col = col + 1;
            assert(pixels@ =~= Seq::new(
                k as nat,
                |j: int| preview_pixel(chunk, words, bytes, j),
            ));
        }
        row = row + 1;
    }
    Canvas { width, height, pixels }
}

/// The first of the slots `from..total` that has not been received.
pub open spec fn first_gap(words: Seq<u64>, total: int, from: int) -> Option<int>
    decreases total - from,
{
    if from >= total {
        None
    } else if !bit_at(words, from) {
        Some(from)
    } else {
        first_gap(words, total, from + 1)
    }
}

/// The length of the part of the buffer before the first missing chunk.
pub open spec fn leading_run(chunk_bytes: u32, stream: ImageStream) -> int {
    let len = stream.bytes@.len() as int;
    match first_gap(stream.received_chunks@, stream.total_chunks as int, 0) {
        Some(slot) => if slot * at_least_one(chunk_bytes) < len {
            slot * at_least_one(chunk_bytes) as int
        } else {
            len
        },
        None => len,
    }
}

/// Byte offset of the first chunk slot that has never been received, or the
/// length of the buffer when every chunk that it covers is filled: an upper bound
/// for the leading intact run.
pub fn first_missing_chunk_byte(snapshot: &ImageSnapshot, stream: &ImageStream) -> (cut: usize)
    ensures
        cut == leading_run(snapshot.chunk_bytes, *stream),
        cut <= stream.bytes@.len(),
{
    let chunk: u32 = if snapshot.chunk_bytes == 0 { 1 } else { snapshot.chunk_bytes };
    let ghost words = stream.received_chunks@;
    let total: u32 = stream.total_chunks;
    let mut idx: u32 = 0;
    while idx < total
        invariant
            idx <= total,
            total == stream.total_chunks,
            words == stream.received_chunks@,
            chunk == at_least_one(snapshot.chunk_bytes),
            first_gap(words, total as int, 0) == first_gap(words, total as int, idx as int),
        decreases total - idx,
    {
        if !stream.chunk_received(idx) {
            proof {
                assert(idx * chunk <= 0xffff_ffff * 0xffff_ffff) by (nonlinear_arith)
                    requires
                        idx <= 0xffff_ffff,
                        chunk <= 0xffff_ffff,
                ;
            }
            let at: u64 = idx as u64 * chunk as u64;
            return if at < stream.bytes.len() as u64 { at as usize } else { stream.bytes.len() };
        }
        idx = idx + 1;
    }
    stream.bytes.len()
}

/// Layout of the pixels that a JPEG decoder hands out.
#[derive(Debug, Clone, Copy, PartialEq, Eq, Structural)]
pub enum PictureFormat {
    /// One byte of luminance per pixel.
    L8,
    /// Two bytes of luminance per pixel.
    L16,
    /// Three bytes per pixel: red, green, blue.
    Rgb24,
    /// Four bytes per pixel: cyan, magenta, yellow, black.
    Cmyk32,
}

/// A decoded JPEG picture.
#[derive(Debug)]
pub struct Picture {
    /// Pixels per row.
    pub width: u16,
    /// Number of rows.
    pub height: u16,
    /// Layout of `pixels`.
    pub format: PictureFormat,
    /// The samples in row order.
    pub pixels: Vec<u8>,
}

/// The contents of a picture: width, height, layout and samples.
pub open spec fn picture_parts(picture: Option<Picture>) -> Option<
    (u16, u16, PictureFormat, Seq<u8>),
> {
    match picture {
        Some(p) => Some((p.width, p.height, p.format, p.pixels@)),
        None => None,
    }
}

/// The samples of a picture are single bytes: one per pixel for `L8`, three for
/// `Rgb24`, four for `Cmyk32`. Wider samples are handed out in the byte order of the
/// machine.
pub open spec fn single_bytes(width: u16, height: u16, format: PictureFormat, len: nat) -> bool {
    match format {
        PictureFormat::L8 => len == width * height,
        PictureFormat::L16 => false,
        PictureFormat::Rgb24 => len == 3 * (width * height),
        PictureFormat::Cmyk32 => len == 4 * (width * height),
    }
}

/// What is the same of a picture on every machine: wider samples than bytes are left
/// out.
pub open spec fn portable(picture: Option<(u16, u16, PictureFormat, Seq<u8>)>) -> Option<
    (u16, u16, PictureFormat, Seq<u8>),
> {
    match picture {
        Some((width, height, format, samples)) => if single_bytes(
            width,
            height,
            format,
            samples.len(),
        ) {
            picture
        } else {
            Some((width, height, format, Seq::empty()))
        },
        None => None,
    }
}

/// A picture, if there is one, has samples of single bytes.
pub open spec fn byte_wide(picture: Option<(u16, u16, PictureFormat, Seq<u8>)>) -> bool {
    match picture {
        Some((width, height, format, samples)) => single_bytes(
            width,
            height,
            format,
            samples.len(),
        ),
        None => true,
    }
}

/// What `jpeg_decoder` makes of a byte sequence: the picture's width, height,
/// layout and samples, or nothing where it reports an error. Samples wider than
/// bytes are left out.
pub uninterp spec fn jpeg_picture(bytes: Seq<u8>) -> Option<(u16, u16, PictureFormat, Seq<u8>)>;

/// Calls `jpeg_decoder::Decoder::decode` on the bytes and `Decoder::info` after
/// it. With the crate's feature `platform_independent` the result is a function of
/// the bytes alone, on every machine that has room for the picture, but for samples
/// that are wider than bytes: those of a lossless frame of another precision than
/// eight come in the machine's byte order, and nothing is said of them. A sequence
/// that does not start with the start-of-image marker is refused. What the decoder
/// makes of any other sequence is left to its name. Sequences whose blocks the decoder
/// cannot count in sixteen bits, or whose buffers no address reaches, are left out: it
/// would overflow on them.
#[verifier::external_body]
fn jpeg_decode(bytes: &[u8]) -> (res: Option<Picture>)
    requires
        countable(bytes@),
    ensures
        portable(picture_parts(res)) == jpeg_picture(bytes@),
        bytes@.len() < 2 || bytes@[0] != 0xFF || bytes@[1] != 0xD8 ==> res is None,
{
    let mut decoder = jpeg_decoder::Decoder::new(bytes);
    let pixels = decoder.decode().ok()?;
    let info = decoder.info()?;
    let format = match info.pixel_format {
        jpeg_decoder::PixelFormat::L8 => PictureFormat::L8,
        jpeg_decoder::PixelFormat::L16 => PictureFormat::L16,
        jpeg_decoder::PixelFormat::RGB24 => PictureFormat::Rgb24,
        jpeg_decoder::PixelFormat::CMYK32 => PictureFormat::Cmyk32,
    };
    Some(Picture { width: info.width, height: info.height, format, pixels })
}

/// The canvas of a decoded picture. Sixteen-bit luminance and CMYK are not shown.
pub open spec fn picture_canvas(
    picture: Option<(u16, u16, PictureFormat, Seq<u8>)>,
) -> Option<CanvasModel> {
    match picture {
        Some((width, height, PictureFormat::L8, pixels)) => Some(
            raw_canvas(width as nat, height as nat, PixelFormat::Gray8, pixels),
        ),
        Some((width, height, PictureFormat::Rgb24, pixels)) => Some(
            raw_canvas(width as nat, height as nat, PixelFormat::Rgb888, pixels),
        ),
        _ => None,
    }
}

/// The contents of an optional canvas.
pub open spec fn canvas_view(canvas: Option<Canvas>) -> Option<CanvasModel> {
    match canvas {
        Some(c) => Some(c@),
        None => None,
    }
}

/// Lay a decoded picture out as a canvas. Pixels whose samples are missing are
/// black; layouts other than `L8` and `Rgb24` give nothing.
pub fn canvas_of_picture(picture: Option<Picture>) -> (canvas: Option<Canvas>)
    ensures
        canvas_view(canvas) == picture_canvas(picture_parts(picture)),
{
    match picture {
        Some(p) => {
            let format: PixelFormat = match p.format {
                PictureFormat::L8 => PixelFormat::Gray8,
                PictureFormat::Rgb24 => PixelFormat::Rgb888,
                _ => {
                    return None;
                },
            };
            proof {
                assert(p.width * p.height <= 0xffff * 0xffff) by (nonlinear_arith)
                    requires
                        p.width <= 0xffff,
                        p.height <= 0xffff,
                ;
            }
            let count: usize = p.width as usize * p.height as usize;
            let canvas = Canvas {
                width: p.width as u32,
                height: p.height as u32,
                pixels: mapped(format, &p.pixels, count),
            };
            Some(canvas)
        },
        None => None,
    }
}

/// The canvas of a JPEG byte sequence, where the decoder can count through it and
/// accepts it.
pub open spec fn decoded_canvas(bytes: Seq<u8>) -> Option<CanvasModel> {
    if countable(bytes) {
        picture_canvas(jpeg_picture(bytes))
    } else {
        None
    }
}

/// Two canvases have the same size.
pub open spec fn same_size(a: CanvasModel, b: CanvasModel) -> bool {
    a.width == b.width && a.height == b.height && a.pixels.len() == b.pixels.len()
}

/// Decode a complete JPEG byte sequence. One that the decoder cannot count through is
/// not shown. The colours of a picture whose samples are wider than bytes depend on
/// the machine; its size does not.
pub fn decode_jpeg_bytes(bytes: &[u8]) -> (canvas: Option<Canvas>)
    ensures
        canvas is Some <==> decoded_canvas(bytes@) is Some,
        canvas is Some ==> same_size(canvas->0@, decoded_canvas(bytes@)->0),
        byte_wide(jpeg_picture(bytes@)) ==> canvas_view(canvas) == decoded_canvas(bytes@),
        bytes@.len() < 2 || bytes@[0] != 0xFF || bytes@[1] != 0xD8 ==> canvas is None,
{
    if !is_countable(bytes) {
        return None;
    }
    let picture = jpeg_decode(bytes);
    let ghost parts = picture_parts(picture);
    let canvas = canvas_of_picture(picture);
    proof {
        match parts {
            Some((width, height, format, samples)) => {
                if !single_bytes(width, height, format, samples.len()) && canvas is Some
                    && width * height == 0 {
                    assert(canvas->0@ =~= decoded_canvas(bytes@)->0);
                }
            },
            None => {},
        }
    }
    canvas
}

/// A byte sequence followed by the end-of-image marker.
pub open spec fn terminated(bytes: Seq<u8>) -> Seq<u8> {
    bytes + seq![0xFFu8, 0xD9u8]
}

/// The shapes of a stream that are handed to the decoder, in order: the bytes as
/// they are, the bytes terminated, and, where it is long enough to hold more than
/// the start marker, the leading intact run terminated.
pub open spec fn jpeg_shapes(chunk_bytes: u32, stream: ImageStream) -> Seq<Seq<u8>> {
    let bytes = stream.bytes@;
    let cut = leading_run(chunk_bytes, stream);
    if cut > 2 {
        seq![bytes, terminated(bytes), terminated(bytes.take(cut))]
    } else {
        seq![bytes, terminated(bytes)]
    }
}

/// The first of the shapes that decodes, starting from `k`.
pub open spec fn first_readable(shapes: Seq<Seq<u8>>, k: int) -> Option<int>
    decreases shapes.len() - k,
{
    if k >= shapes.len() {
        None
    } else if decoded_canvas(shapes[k]) is Some {
        Some(k)
    } else {
        first_readable(shapes, k + 1)
    }
}

/// A stream begins with the start-of-image marker.
pub open spec fn starts_jpeg(bytes: Seq<u8>) -> bool {
    bytes.len() >= 2 && bytes[0] == 0xFF && bytes[1] == 0xD8
}

/// What is shown of a JPEG stream.
pub open spec fn jpeg_rendering(chunk_bytes: u32, stream: ImageStream) -> (
    CanvasModel,
    ImageRenderKind,
) {
    let shapes = jpeg_shapes(chunk_bytes, stream);
    match first_readable(shapes, 0) {
        Some(k) if starts_jpeg(stream.bytes@) => (
            decoded_canvas(shapes[k])->0,
            ImageRenderKind::JpegDecoded,
        ),
        _ => (preview_canvas(chunk_bytes, stream), ImageRenderKind::JpegBytesPreview),
    }
}

/// The samples of what is shown of a JPEG stream are single bytes.
pub open spec fn jpeg_byte_wide(chunk_bytes: u32, stream: ImageStream) -> bool {
    let shapes = jpeg_shapes(chunk_bytes, stream);
    match first_readable(shapes, 0) {
        Some(k) if starts_jpeg(stream.bytes@) => byte_wide(jpeg_picture(shapes[k])),
        _ => true,
    }
}

/// What is shown is obtained as the model says and has its size; where `exact`, the
/// pixels are the model's too.
pub open spec fn shows(
    shown: (CanvasModel, ImageRenderKind),
    model: (CanvasModel, ImageRenderKind),
    exact: bool,
) -> bool {
    &&& shown.1 == model.1
    &&& same_size(shown.0, model.0)
    &&& exact ==> shown.0 == model.0
}

fn terminate(bytes: &[u8], to: usize) -> (out: Vec<u8>)
    requires
        to <= bytes@.len(),
    ensures
        out@ == terminated(bytes@.take(to as int)),
{
    let mut out = copy_range(bytes, 0, to);
    out.push(0xFF);
    out.push(0xD9);
    assert(out@ =~= terminated(bytes@.take(to as int)));
    out
}

/// Show a JPEG stream, tolerating one that is still incomplete. The decoder is
/// tried on the bytes as they are, then on the bytes with the end-of-image marker
/// appended, then on the leading intact run with the marker appended; where none
/// decodes, or the stream does not begin with the start-of-image marker, the bytes
/// themselves are shown.
pub fn render_image_jpeg(snapshot: &ImageSnapshot, stream: &ImageStream) -> (res: (
    Canvas,
    ImageRenderKind,
))
    requires
        at_least_one(snapshot.chunk_bytes) * at_least_one(stream.total_chunks) <= usize::MAX,
    ensures
        shows(
            (res.0@, res.1),
            jpeg_rendering(snapshot.chunk_bytes, *stream),
            jpeg_byte_wide(snapshot.chunk_bytes, *stream),
        ),
{
    let bytes = stream.bytes.as_slice();
    let ghost shapes = jpeg_shapes(snapshot.chunk_bytes, *stream);
    proof {
        reveal_with_fuel(first_readable, 4);
        assert(bytes@.take(bytes@.len() as int) =~= bytes@);
    }
    if bytes.len() < 2 || bytes[0] != 0xFF || bytes[1] != 0xD8 {
        let preview = render_jpeg_bytes_as_grayscale(snapshot, stream);
        return (preview, ImageRenderKind::JpegBytesPreview);
    }
    let verbatim = decode_jpeg_bytes(bytes);
    if let Some(canvas) = verbatim {
        assert(first_readable(shapes, 0) == Some(0int));
        return (canvas, ImageRenderKind::JpegDecoded);
    }
    let padded = terminate(bytes, bytes.len());
    let ended = decode_jpeg_bytes(padded.as_slice());
    if let Some(canvas) = ended {
        assert(first_readable(shapes, 0) == Some(1int));
        return (canvas, ImageRenderKind::JpegDecoded);
    }
    let cut: usize = first_missing_chunk_byte(snapshot, stream);
    if cut > 2 {
        let clipped = terminate(bytes, cut);
        let leading = decode_jpeg_bytes(clipped.as_slice());
        if let Some(canvas) = leading {
            assert(first_readable(shapes, 0) == Some(2int));
            return (canvas, ImageRenderKind::JpegDecoded);
        }
    }
    assert(first_readable(shapes, 0) is None);
    let preview = render_jpeg_bytes_as_grayscale(snapshot, stream);
    (preview, ImageRenderKind::JpegBytesPreview)
}

/// What is shown of an image.
pub open spec fn rendering(snapshot: ImageSnapshot, stream: ImageStream) -> (
    CanvasModel,
    ImageRenderKind,
) {
    match snapshot.decoder {
        ImageDecoder::Jpeg => jpeg_rendering(snapshot.chunk_bytes, stream),
        ImageDecoder::Raw => (
            raw_canvas(
                snapshot.width as nat,
                snapshot.height as nat,
                snapshot.pixel_format,
                stream.bytes@,
            ),
            ImageRenderKind::Raw,
        ),
    }
}

/// Show one image of a snapshot.
pub fn render_image(snapshot: &ImageSnapshot, stream: &ImageStream) -> (res: (
    Canvas,
    ImageRenderKind,
))
    requires
        snapshot.width * snapshot.height <= usize::MAX,
        at_least_one(snapshot.chunk_bytes) * at_least_one(stream.total_chunks) <= usize::MAX,
    ensures
        shows(
            (res.0@, res.1),
            rendering(*snapshot, *stream),
            snapshot.decoder == ImageDecoder::Jpeg ==> jpeg_byte_wide(
                snapshot.chunk_bytes,
                *stream,
            ),
        ),
{
    match snapshot.decoder {
        ImageDecoder::Jpeg => render_image_jpeg(snapshot, stream),
        ImageDecoder::Raw => {
            let canvas = render_image_raw(snapshot, stream);
            (canvas, ImageRenderKind::Raw)
        },
    }
}

/// The bytes that are saved for a JPEG stream.
pub open spec fn jpeg_export(chunk_bytes: u32, stream: ImageStream) -> Seq<u8> {
    let shapes = jpeg_shapes(chunk_bytes, stream);
    match first_readable(shapes, 0) {
        Some(k) => shapes[k],
        None => terminated(stream.bytes@),
    }
}

/// Pick the bytes to save for a JPEG stream: the first of the shapes that decodes,
/// or the terminated bytes where none does, so that the saved file at least has
/// the terminator that viewers expect.
pub fn jpeg_export_bytes(snapshot: &ImageSnapshot, stream: &ImageStream) -> (out: Vec<u8>)
    ensures
        out@ == jpeg_export(snapshot.chunk_bytes, *stream),
{
    let bytes = stream.bytes.as_slice();
    let ghost shapes = jpeg_shapes(snapshot.chunk_bytes, *stream);
    proof {
        reveal_with_fuel(first_readable, 4);
        assert(bytes@.take(bytes@.len() as int) =~= bytes@);
    }
    if decode_jpeg_bytes(bytes).is_some() {
        assert(first_readable(shapes, 0) == Some(0int));
        return copy_range(bytes, 0, bytes.len());
    }
    let padded = terminate(bytes, bytes.len());
    if decode_jpeg_bytes(padded.as_slice()).is_some() {
        assert(first_readable(shapes, 0) == Some(1int));
        return padded;
    }
    let cut: usize = first_missing_chunk_byte(snapshot, stream);
    if cut > 2 {
        let clipped = terminate(bytes, cut);
        if decode_jpeg_bytes(clipped.as_slice()).is_some() {
            assert(first_readable(shapes, 0) == Some(2int));
            return clipped;
        }
    }
    assert(first_readable(shapes, 0) is None);
    padded
}

/// The name proposed for a saved JPEG: the image's index and the file's length.
pub open spec fn jpeg_name(image_idx: u32, len: nat) -> Seq<char> {
    "openhoshimi_image_"@ + decimal(image_idx as nat) + "_"@ + decimal(len) + "b.jpg"@
}

/// The file name that is proposed when a JPEG of `len` bytes is saved.
pub fn jpeg_file_name(image_idx: u32, len: usize) -> (name: String)
    ensures
        name@ == jpeg_name(image_idx, len as nat),
{
    "openhoshimi_image_".to_string().concat(decimal_string(image_idx as u64).as_str()).concat(
        "_",
    ).concat(decimal_string(len as u64).as_str()).concat("b.jpg")
}

/// The name proposed for a saved PNG: the image's index and its dimensions.
pub open spec fn png_name(image_idx: u32, width: u32, height: u32) -> Seq<char> {
    "openhoshimi_image_"@ + decimal(image_idx as nat) + "_"@ + decimal(width as nat) + "x"@
        + decimal(height as nat) + ".png"@
}

/// The file name that is proposed when an image is saved as PNG.
pub fn png_file_name(image_idx: u32, width: u32, height: u32) -> (name: String)
    ensures
        name@ == png_name(image_idx, width, height),
{
    "openhoshimi_image_".to_string().concat(decimal_string(image_idx as u64).as_str()).concat(
        "_",
    ).concat(decimal_string(width as u64).as_str()).concat("x").concat(
        decimal_string(height as u64).as_str(),
    ).concat(".png")
}

/// A byte of a stream, or zero beyond its end.
pub open spec fn byte_or_zero(bytes: Seq<u8>, k: int) -> u8 {
    if k < bytes.len() {
        bytes[k]
    } else {
        0
    }
}

/// One of the three colours of a pixel.
pub open spec fn channel(p: Rgb, c: int) -> u8 {
    if c == 0 {
        p.r
    } else if c == 1 {
        p.g
    } else {
        p.b
    }
}

/// The samples of a PNG of `count` pixels: one byte per pixel for `Gray8`, three
/// for the others.
pub open spec fn png_samples(format: PixelFormat, count: nat, bytes: Seq<u8>) -> Seq<u8> {
    match format {
        PixelFormat::Gray8 => Seq::new(count, |k: int| byte_or_zero(bytes, k)),
        PixelFormat::Rgb565 => Seq::new(
            3 * count,
            |k: int| channel(raw_pixel(format, bytes, k / 3), k % 3),
        ),
        PixelFormat::Rgb888 => Seq::new(3 * count, |k: int| byte_or_zero(bytes, k)),
    }
}

fn zero_padded(bytes: &Vec<u8>, count: usize) -> (out: Vec<u8>)
    ensures
        out@ == Seq::new(count as nat, |k: int| byte_or_zero(bytes@, k)),
{
    let mut out: Vec<u8> = Vec::new();
    let mut k: usize = 0;
    while k < count
        invariant
            k <= count,
            out@ == Seq::new(k as nat, |j: int| byte_or_zero(bytes@, j)),
        decreases count - k,
    {
        out.push(if k < bytes.len() { bytes[k] } else { 0 });
        k = k + 1;
        assert(out@ =~= Seq::new(k as nat, |j: int| byte_or_zero(bytes@, j)));
    }
    out
}

/// The samples to write into a PNG: one byte per pixel for `Gray8`, red, green and
/// blue for the others. RGB565 is widened to eight bits by repeating bits, so the
/// file looks as the canvas does.
pub fn encode_pixels_for_png(snapshot: &ImageSnapshot, stream: &ImageStream) -> (out: Vec<u8>)
    requires
        3 * (snapshot.width * snapshot.height) <= usize::MAX,
    ensures
        out@ == png_samples(
            snapshot.pixel_format,
            (snapshot.width * snapshot.height) as nat,
            stream.bytes@,
        ),
{
    proof {
        assert(snapshot.width * snapshot.height >= 0) by (nonlinear_arith);
    }
    let count: usize = snapshot.width as usize * snapshot.height as usize;
    let format: PixelFormat = snapshot.pixel_format;
    let ghost bytes = stream.bytes@;
    match format {
        PixelFormat::Gray8 => zero_padded(&stream.bytes, count),
        PixelFormat::Rgb888 => zero_padded(&stream.bytes, 3 * count),
        PixelFormat::Rgb565 => {
            let mut out: Vec<u8> = Vec::new();
            let mut i: usize = 0;
            while i < count
                invariant
                    i <= count,
                    bytes == stream.bytes@,
                    out@ == png_samples(PixelFormat::Rgb565, i as nat, bytes),
                decreases count - i,
            {
                let p = pixel_of(PixelFormat::Rgb565, &stream.bytes, i);
                out.push(p.r);
                out.push(p.g);
                out.push(p.b);
                i = i + 1;
                assert(out@ =~= png_samples(PixelFormat::Rgb565, i as nat, bytes));
            }
            out
        },
    }
}

/// Colour layout of a PNG with eight bits per sample.
#[derive(Debug, Clone, Copy, PartialEq, Eq, Structural)]
pub enum PngColor {
    /// One sample per pixel.
    Grayscale,
    /// Three samples per pixel.
    Rgb,
}

impl PngColor {
    /// Samples per pixel.
    pub open spec fn samples(self) -> int {
        match self {
            PngColor::Grayscale => 1,
            PngColor::Rgb => 3,
        }
    }
}

/// Where the encoding of a PNG failed, with the encoder's words.
#[derive(Debug)]
pub enum PngFault {
    /// While the header was written.
    Header(String),
    /// While the samples were written.
    Data(String),
}

/// The file that `png` writes for a picture of these dimensions, colour layout and
/// samples, with eight bits per sample and its default settings.
pub uninterp spec fn png_file(width: u32, height: u32, color: PngColor, samples: Seq<u8>) -> Seq<
    u8,
>;

/// Calls `png::Encoder` on a buffer: `write_header`, then `Writer::write_image_data`
/// with all samples. The encoder refuses a picture without columns, then one
/// without rows; where the number of samples is right and the buffer cannot fail,
/// it refuses nothing else. The file is a function of the arguments alone.
#[verifier::external_body]
fn png_encode(width: u32, height: u32, color: PngColor, samples: &[u8]) -> (res: Result<
    Vec<u8>,
    PngFault,
>)
    requires
        samples@.len() == width * height * color.samples(),
        samples@.len() < usize::MAX,
        width * color.samples() < usize::MAX,
    ensures
        match res {
            Ok(file) => width > 0 && height > 0 && file@ == png_file(
                width,
                height,
                color,
                samples@,
            ),
            Err(PngFault::Header(text)) => (width == 0 || height == 0) && text@ == (if width
                == 0 {
                "Zero width not allowed"@
            } else {
                "Zero height not allowed"@
            }),
            Err(PngFault::Data(text)) => false,
        },
{
    let mut out: Vec<u8> = Vec::new();
    let mut encoder = png::Encoder::new(&mut out, width, height);
    encoder.set_color(match color {
        PngColor::Grayscale => png::ColorType::Grayscale,
        PngColor::Rgb => png::ColorType::Rgb,
    });
    encoder.set_depth(png::BitDepth::Eight);
    let mut writer = encoder.write_header().map_err(|e| PngFault::Header(e.to_string()))?;
    writer.write_image_data(samples).map_err(|e| PngFault::Data(e.to_string()))?;
    drop(writer);
    Ok(out)
}

/// The colour layout of a PNG of raw pixels.
pub open spec fn png_color(format: PixelFormat) -> PngColor {
    match format {
        PixelFormat::Gray8 => PngColor::Grayscale,
        _ => PngColor::Rgb,
    }
}

/// What saving raw pixels as PNG gives: the file, or the encoder's refusal of a
/// picture without columns or rows.
pub open spec fn png_export(
    width: u32,
    height: u32,
    format: PixelFormat,
    bytes: Seq<u8>,
) -> Result<Seq<u8>, Seq<char>> {
    if width == 0 {
        Err("png header: "@ + "Zero width not allowed"@)
    } else if height == 0 {
        Err("png header: "@ + "Zero height not allowed"@)
    } else {
        Ok(
            png_file(
                width,
                height,
                png_color(format),
                png_samples(format, (width * height) as nat, bytes),
            ),
        )
    }
}

/// The contents of a file or of a refusal.
pub open spec fn file_view(res: Result<Vec<u8>, String>) -> Result<Seq<u8>, Seq<char>> {
    match res {
        Ok(file) => Ok(file@),
        Err(text) => Err(text@),
    }
}

/// Encode a raw image as a PNG file: greyscale for `Gray8`, colour for the others.
pub fn png_export_bytes(snapshot: &ImageSnapshot, stream: &ImageStream) -> (res: Result<
    Vec<u8>,
    String,
>)
    requires
        3 * snapshot.width < usize::MAX,
        3 * (snapshot.width * snapshot.height) < usize::MAX,
    ensures
        file_view(res) == png_export(
            snapshot.width,
            snapshot.height,
            snapshot.pixel_format,
            stream.bytes@,
        ),
{
    let color = match snapshot.pixel_format {
        PixelFormat::Gray8 => PngColor::Grayscale,
        _ => PngColor::Rgb,
    };
    let samples = encode_pixels_for_png(snapshot, stream);
    proof {
        let area = snapshot.width * snapshot.height;
        assert(area >= 0) by (nonlinear_arith)
            requires
                area == snapshot.width * snapshot.height,
        ;
        assert(area * 1 == area && area * 3 == 3 * area);
    }
    match png_encode(snapshot.width, snapshot.height, color, samples.as_slice()) {
        Ok(file) => Ok(file),
        Err(PngFault::Header(text)) => Err("png header: ".to_string().concat(text.as_str())),
        Err(PngFault::Data(text)) => Err("png write: ".to_string().concat(text.as_str())),
    }
}

/// A PNG shows what the canvas shows: the samples of every pixel are the colours of
/// that pixel of the canvas. A trailing RGB888 pixel of which the stream holds only
/// a part is the one exception: the canvas leaves it black, the file holds the part.
pub proof fn law_png_matches_canvas(
    width: nat,
    height: nat,
    format: PixelFormat,
    bytes: Seq<u8>,
    k: int,
)
    requires
        0 <= k < width * height,
        format == PixelFormat::Rgb888 ==> 3 * k + 2 < bytes.len() || bytes.len() <= 3 * k,
    ensures
        match format {
            PixelFormat::Gray8 => raw_canvas(width, height, format, bytes).pixels[k] == gray(
                png_samples(format, width * height, bytes)[k],
            ),
            _ => raw_canvas(width, height, format, bytes).pixels[k] == (Rgb {
                r: png_samples(format, width * height, bytes)[3 * k],
                g: png_samples(format, width * height, bytes)[3 * k + 1],
                b: png_samples(format, width * height, bytes)[3 * k + 2],
            }),
        },
{
}

/// What is saved for a JPEG stream is what is shown of it: where the stream is shown
/// decoded, the saved bytes decode to the same canvas.
pub proof fn law_export_shows_the_same(chunk_bytes: u32, stream: ImageStream)
    requires
        jpeg_rendering(chunk_bytes, stream).1 == ImageRenderKind::JpegDecoded,
    ensures
        decoded_canvas(jpeg_export(chunk_bytes, stream)) == Some(
            jpeg_rendering(chunk_bytes, stream).0,
        ),
{
    reveal_with_fuel(first_readable, 4);
}

/// A stream that decodes as it is, is saved as it is.
pub proof fn law_readable_stream_is_kept(chunk_bytes: u32, stream: ImageStream)
    requires
        decoded_canvas(stream.bytes@) is Some,
    ensures
        jpeg_export(chunk_bytes, stream) == stream.bytes@,
{
    reveal_with_fuel(first_readable, 2);
}

/// The leading run ends where the first missing chunk begins: every chunk before it
/// has been received, and it lies within the buffer.
pub proof fn law_leading_run_is_received(chunk_bytes: u32, stream: ImageStream, slot: int)
    requires
        0 <= slot < stream.total_chunks,
        slot * at_least_one(chunk_bytes) < leading_run(chunk_bytes, stream),
    ensures
        bit_at(stream.received_chunks@, slot),
        leading_run(chunk_bytes, stream) <= stream.bytes@.len(),
{
    let words = stream.received_chunks@;
    let total = stream.total_chunks as int;
    let chunk = at_least_one(chunk_bytes) as int;
    lemma_first_gap(words, total, 0, slot);
    match first_gap(words, total, 0) {
        Some(gap) => {
            if gap <= slot {
                assert(gap * chunk <= slot * chunk) by (nonlinear_arith)
                    requires
                        gap <= slot,
                        chunk > 0,
                ;
            }
        },
        None => {},
    }
}

proof fn lemma_first_gap(words: Seq<u64>, total: int, from: int, slot: int)
    requires
        from <= slot < total,
    ensures
        match first_gap(words, total, from) {
            Some(gap) => from <= gap < total && (slot < gap ==> bit_at(words, slot)),
            None => bit_at(words, slot),
        },
    decreases total - from,
{
    if bit_at(words, from) && from < slot {
        lemma_first_gap(words, total, from + 1, slot);
    } else if bit_at(words, from) && from + 1 < total {
        lemma_first_gap(words, total, from + 1, from + 1);
    } else if bit_at(words, from) {
        reveal_with_fuel(first_gap, 2);
    }
}

} // verus!
