//! Which bytes of a stream are seen where, and which of the ways to show it is taken.
use vstd::prelude::*;
use crate::bitmap::bit_at;
use crate::gallery::{
    cell_of, image_at, no_image_words, shown_at, sstv_model, waiting_words, GridCell,
};
use crate::image::{ImageDecoder, ImageSnapshot, ImageStream, PixelFormat};
use crate::render;
use crate::render::{
    canvas_view, decoded_canvas, file_view, first_gap, first_readable, jpeg_byte_wide, jpeg_export,
    jpeg_name, jpeg_picture, jpeg_rendering, jpeg_shapes, leading_run, picture_canvas,
    picture_parts, png_export, png_file, png_name, png_samples, preview_canvas, raw_canvas,
    rendering, terminated, Canvas, CanvasModel, ImageRenderKind, Picture, PictureFormat, PngColor,
    Rgb,
};
use crate::sstv::SstvImage;
use crate::text::{decimal, figure, law_decimal_is_read_back, number};

verus! {

/// The place in column `x` of row `y`, counted row by row.
pub open spec fn place(width: int, x: int, y: int) -> int {
    y * width + x
}

proof fn lemma_place(width: int, height: int, x: int, y: int)
    requires
        0 <= x < width,
        0 <= y < height,
    ensures
        0 <= place(width, x, y) < width * height,
        0 <= place(width, x, y) < height * width,
        place(width, x, y) / width == y,
        place(width, x, y) % width == x,
{
    vstd::arithmetic::div_mod::lemma_fundamental_div_mod_converse(y * width + x, width, y, x);
    assert(0 <= y * width + x < width * height) by (nonlinear_arith)
        requires
            0 <= x < width,
            0 <= y < height,
    ;
    assert(width * height == height * width) by (nonlinear_arith);
}

/// An eight-bit intensity is a five-bit one with its top three bits behind it.
pub open spec fn from_five(v: int, five: int) -> bool {
    v / 8 == five && v % 8 == five / 4
}

/// An eight-bit intensity is a six-bit one with its top two bits behind it.
pub open spec fn from_six(v: int, six: int) -> bool {
    v / 4 == six && v % 4 == six / 16
}

/// The colour at a place of a raw picture: one byte gives a grey, two bytes give five bits
/// of red, six of green and five of blue, and three bytes give one colour each. Where the
/// bytes are not all there, the place is black.
pub open spec fn is_colour_of(format: PixelFormat, bytes: Seq<u8>, k: int, p: Rgb) -> bool {
    let black = p.r == 0 && p.g == 0 && p.b == 0;
    match format {
        PixelFormat::Gray8 => if k < bytes.len() {
            p.r == bytes[k] && p.g == bytes[k] && p.b == bytes[k]
        } else {
            black
        },
        PixelFormat::Rgb565 => if 2 * k + 1 < bytes.len() {
            let v = 256 * bytes[2 * k] + bytes[2 * k + 1];
            &&& from_five(p.r as int, v / 2048)
            &&& from_six(p.g as int, v / 32 % 64)
            &&& from_five(p.b as int, v % 32)
        } else {
            black
        },
        PixelFormat::Rgb888 => if 3 * k + 2 < bytes.len() {
            p.r == bytes[3 * k] && p.g == bytes[3 * k + 1] && p.b == bytes[3 * k + 2]
        } else {
            black
        },
    }
}

/// A raw picture shows its bytes row by row.
pub proof fn law_raw_places(
    width: nat,
    height: nat,
    format: PixelFormat,
    bytes: Seq<u8>,
    x: int,
    y: int,
)
    requires
        0 <= x < width,
        0 <= y < height,
    ensures
        ({
            let c = raw_canvas(width, height, format, bytes);
            let k = place(width as int, x, y);
            &&& c.width == width
            &&& c.height == height
            &&& c.pixels.len() == width * height
            &&& is_colour_of(format, bytes, k, c.pixels[k])
        }),
{
    lemma_place(width as int, height as int, x, y);
}

/// The samples of a PNG are the bytes of the stream themselves, but for the pairs of
/// RGB565, which give three samples each. What the stream lacks is zero.
pub proof fn law_png_samples(format: PixelFormat, count: nat, bytes: Seq<u8>, k: int)
    requires
        0 <= k < count,
    ensures
        ({
            let s = png_samples(format, count, bytes);
            match format {
                PixelFormat::Gray8 => {
                    &&& s.len() == count
                    &&& s[k] == if k < bytes.len() {
                        bytes[k]
                    } else {
                        0
                    }
                },
                PixelFormat::Rgb565 => {
                    &&& s.len() == 3 * count
                    &&& is_colour_of(
                        format,
                        bytes,
                        k,
                        Rgb { r: s[3 * k], g: s[3 * k + 1], b: s[3 * k + 2] },
                    )
                },
                PixelFormat::Rgb888 => {
                    &&& s.len() == 3 * count
                    &&& forall|i: int|
                        0 <= i < 3 * count ==> #[trigger] s[i] == if i < bytes.len() {
                            bytes[i]
                        } else {
                            0
                        }
                },
            }
        }),
{
}

/// In the preview of a stream each row is a chunk: a chunk that has come shows its bytes
/// as greys, and a missing one is a checkerboard of two greys in squares of four places.
pub proof fn law_preview_places(chunk_bytes: u32, stream: ImageStream, x: int, y: int)
    requires
        chunk_bytes > 0,
        0 <= x < chunk_bytes,
        0 <= y < stream.total_chunks,
    ensures
        ({
            let c = preview_canvas(chunk_bytes, stream);
            let k = place(chunk_bytes as int, x, y);
            let p = c.pixels[k];
            &&& c.width == chunk_bytes
            &&& c.height == stream.total_chunks
            &&& c.pixels.len() == chunk_bytes * stream.total_chunks
            &&& bit_at(stream.received_chunks@, y) ==> is_colour_of(
                PixelFormat::Gray8,
                stream.bytes@,
                k,
                p,
            )
            &&& !bit_at(stream.received_chunks@, y) ==> if (x / 4 + y / 4) % 2 == 0 {
                p.r == 36 && p.g == 38 && p.b == 42
            } else {
                p.r == 60 && p.g == 62 && p.b == 68
            }
        }),
{
    lemma_place(chunk_bytes as int, stream.total_chunks as int, x, y);
}

/// A stream without chunks or with empty ones still has one row or column to show.
pub proof fn law_preview_is_never_empty(chunk_bytes: u32, stream: ImageStream)
    ensures
        chunk_bytes == 0 ==> preview_canvas(chunk_bytes, stream).width == 1,
        stream.total_chunks == 0 ==> preview_canvas(chunk_bytes, stream).height == 1,
{
}

/// The leading run is as long as can be: it ends at the end of the buffer, or where the
/// first missing chunk begins.
pub proof fn law_leading_run_is_longest(chunk_bytes: u32, stream: ImageStream)
    requires
        chunk_bytes > 0,
    ensures
        ({
            let run = leading_run(chunk_bytes, stream);
            &&& run <= stream.bytes@.len()
            &&& run == stream.bytes@.len() || exists|slot: int|
                0 <= slot < stream.total_chunks && run == slot * chunk_bytes && !(#[trigger] bit_at(
                    stream.received_chunks@,
                    slot,
                ))
        }),
{
    lemma_gap_is_missing(stream.received_chunks@, stream.total_chunks as int, 0);
}

proof fn lemma_gap_is_missing(words: Seq<u64>, total: int, from: int)
    requires
        0 <= from,
    ensures
        first_gap(words, total, from) matches Some(gap) ==> from <= gap < total && !bit_at(
            words,
            gap,
        ),
    decreases total - from,
{
    if from < total && bit_at(words, from) {
        lemma_gap_is_missing(words, total, from + 1);
    }
}

/// The bytes with the end-of-image marker behind them.
pub open spec fn ended(bytes: Seq<u8>) -> Seq<u8> {
    bytes.push(0xFF).push(0xD9)
}

/// The first of the ways to read a JPEG stream that works: as it is, ended, or, where more
/// than the start marker came without a gap, that part of it ended.
pub open spec fn readable_form(chunk_bytes: u32, stream: ImageStream) -> Option<Seq<u8>> {
    let bytes = stream.bytes@;
    let run = leading_run(chunk_bytes, stream);
    if decoded_canvas(bytes) is Some {
        Some(bytes)
    } else if decoded_canvas(ended(bytes)) is Some {
        Some(ended(bytes))
    } else if run > 2 && decoded_canvas(ended(bytes.take(run))) is Some {
        Some(ended(bytes.take(run)))
    } else {
        None
    }
}

/// A JPEG stream that begins with the start marker is shown decoded, in the first form
/// that can be read. Any other is shown as bytes. What is saved is the form that can be
/// read, or the ended bytes where none can.
pub proof fn law_first_readable_form_is_taken(chunk_bytes: u32, stream: ImageStream)
    ensures
        ({
            let bytes = stream.bytes@;
            let shown = jpeg_rendering(chunk_bytes, stream);
            let begins = bytes.len() >= 2 && bytes[0] == 0xFF && bytes[1] == 0xD8;
            match readable_form(chunk_bytes, stream) {
                Some(form) => {
                    &&& jpeg_export(chunk_bytes, stream) == form
                    &&& begins ==> shown == (
                        decoded_canvas(form)->0,
                        ImageRenderKind::JpegDecoded,
                    )
                    &&& !begins ==> shown == (
                        preview_canvas(chunk_bytes, stream),
                        ImageRenderKind::JpegBytesPreview,
                    )
                },
                None => {
                    &&& jpeg_export(chunk_bytes, stream) == ended(bytes)
                    &&& shown == (
                        preview_canvas(chunk_bytes, stream),
                        ImageRenderKind::JpegBytesPreview,
                    )
                },
            }
        }),
{
    let bytes = stream.bytes@;
    let run = leading_run(chunk_bytes, stream);
    reveal_with_fuel(first_readable, 5);
    assert(terminated(bytes) =~= ended(bytes));
    assert(terminated(bytes.take(run)) =~= ended(bytes.take(run)));
    let shapes = jpeg_shapes(chunk_bytes, stream);
    assert(shapes[0] == bytes);
    assert(shapes[1] == ended(bytes));
}

/// The raw pictures and the JPEGs are shown as such.
pub proof fn law_decoder_decides(snapshot: ImageSnapshot, stream: ImageStream)
    ensures
        snapshot.decoder == ImageDecoder::Raw ==> rendering(snapshot, stream) == (
            raw_canvas(
                snapshot.width as nat,
                snapshot.height as nat,
                snapshot.pixel_format,
                stream.bytes@,
            ),
            ImageRenderKind::Raw,
        ),
        snapshot.decoder == ImageDecoder::Jpeg ==> rendering(snapshot, stream) == jpeg_rendering(
            snapshot.chunk_bytes,
            stream,
        ),
{
}

/// Of the decoded pictures the grey ones and those with three colours are shown, sample by
/// sample; others are not.
pub proof fn law_picture_places(
    width: u16,
    height: u16,
    format: PictureFormat,
    samples: Seq<u8>,
    x: int,
    y: int,
)
    requires
        0 <= x < width,
        0 <= y < height,
    ensures
        ({
            let c = picture_canvas(Some((width, height, format, samples)));
            let k = place(width as int, x, y);
            match format {
                PictureFormat::L8 => {
                    &&& c is Some
                    &&& c->0.width == width
                    &&& c->0.height == height
                    &&& is_colour_of(PixelFormat::Gray8, samples, k, c->0.pixels[k])
                },
                PictureFormat::Rgb24 => {
                    &&& c is Some
                    &&& c->0.width == width
                    &&& c->0.height == height
                    &&& is_colour_of(PixelFormat::Rgb888, samples, k, c->0.pixels[k])
                },
                _ => c is None,
            }
        }),
{
    lemma_place(width as int, height as int, x, y);
}

/// An SSTV picture whose samples are all there is shown with three of them for each place.
pub proof fn law_sstv_places(image: SstvImage, x: int, y: int)
    requires
        0 <= x < image.width,
        0 <= y < image.height,
    ensures
        sstv_model(image) is Some <==> image.pixels@.len() >= 3 * (image.width * image.height),
        sstv_model(image) matches Some(c) ==> {
            let k = place(image.width as int, x, y);
            &&& c.width == image.width
            &&& c.height == image.height
            &&& c.pixels.len() == image.width * image.height
            &&& c.pixels[k].r == image.pixels@[3 * k]
            &&& c.pixels[k].g == image.pixels@[3 * k + 1]
            &&& c.pixels[k].b == image.pixels@[3 * k + 2]
        },
{
    lemma_place(image.width as int, image.height as int, x, y);
}

/// The chosen image is shown if it is there, and else the first.
pub proof fn law_chosen_image_is_shown(images: Seq<ImageStream>, active_idx: u32)
    ensures
        images.len() == 0 <==> shown_at(images, active_idx) is None,
        shown_at(images, active_idx) matches Some(i) ==> {
            &&& 0 <= i < images.len()
            &&& images[i].image_idx == active_idx || i == 0
            &&& (exists|j: int| 0 <= j < images.len() && (#[trigger] images[j]).image_idx == active_idx)
                ==> images[i].image_idx == active_idx
            &&& forall|j: int| 0 <= j < i ==> (#[trigger] images[j]).image_idx != active_idx
        },
{
    lemma_image_at(images, active_idx, 0);
}

proof fn lemma_image_at(images: Seq<ImageStream>, idx: u32, from: int)
    requires
        0 <= from,
    ensures
        match image_at(images, idx, from) {
            Some(i) => from <= i < images.len() && images[i].image_idx == idx && forall|j: int|
                from <= j < i ==> (#[trigger] images[j]).image_idx != idx,
            None => forall|j: int|
                from <= j < images.len() ==> (#[trigger] images[j]).image_idx != idx,
        },
    decreases images.len() - from,
{
    if from < images.len() && images[from].image_idx != idx {
        lemma_image_at(images, idx, from + 1);
    }
}

/// The grid shows the chunk that came last, those that came before, and the missing ones.
pub proof fn law_grid_cells(stream: ImageStream, idx: u32)
    ensures
        cell_of(stream, idx) == GridCell::Latest <==> stream.received_count > 0
            && stream.last_chunk_idx == idx,
        cell_of(stream, idx) == GridCell::Missing <==> !bit_at(stream.received_chunks@, idx as int)
            && !(stream.received_count > 0 && stream.last_chunk_idx == idx),
{
}

/// The figures stand for the number.
pub open spec fn is_written(text: Seq<char>, n: nat) -> bool {
    &&& text.len() > 0
    &&& forall|i: int| 0 <= i < text.len() ==> '0' <= #[trigger] text[i] <= '9'
    &&& number(text) == n
}

proof fn lemma_written(n: nat)
    ensures
        is_written(decimal(n), n),
{
    law_decimal_is_read_back(n);
    assert forall|i: int| 0 <= i < decimal(n).len() implies '0' <= #[trigger] decimal(n)[i]
        <= '9' by {
        assert(figure(decimal(n)[i]) is Some);
    }
}

/// The name of a saved JPEG has the number of the image and the length of the file.
pub proof fn law_names_of_jpegs(image_idx: u32, len: nat)
    ensures
        exists|a: Seq<char>, b: Seq<char>|
            is_written(a, image_idx as nat) && is_written(b, len) && jpeg_name(image_idx, len)
                == #[trigger] ("openhoshimi_image_"@ + a + "_"@ + b) + "b.jpg"@,
{
    let a = decimal(image_idx as nat);
    let b = decimal(len);
    lemma_written(image_idx as nat);
    lemma_written(len);
    assert(jpeg_name(image_idx, len) == ("openhoshimi_image_"@ + a + "_"@ + b) + "b.jpg"@);
}

/// The name of a saved PNG has the number of the image, its columns and its rows.
pub proof fn law_names_of_pngs(image_idx: u32, width: u32, height: u32)
    ensures
        exists|a: Seq<char>, b: Seq<char>, c: Seq<char>|
            is_written(a, image_idx as nat) && is_written(b, width as nat) && is_written(
                c,
                height as nat,
            ) && png_name(image_idx, width, height) == #[trigger] ("openhoshimi_image_"@ + a + "_"@
                + b + "x"@ + c) + ".png"@,
{
    let a = decimal(image_idx as nat);
    let b = decimal(width as nat);
    let c = decimal(height as nat);
    lemma_written(image_idx as nat);
    lemma_written(width as nat);
    lemma_written(height as nat);
    assert(png_name(image_idx, width, height) == ("openhoshimi_image_"@ + a + "_"@ + b + "x"@ + c)
        + ".png"@);
}

/// A picture without columns or rows is not saved; any other is, with its own size and the
/// samples of its format.
pub proof fn law_what_is_saved_as_png(width: u32, height: u32, format: PixelFormat, bytes: Seq<u8>)
    ensures
        png_export(width, height, format, bytes) is Err <==> width == 0 || height == 0,
        width > 0 && height > 0 ==> png_export(width, height, format, bytes) == Ok::<
            Seq<u8>,
            Seq<char>,
        >(
            png_file(
                width,
                height,
                if format == PixelFormat::Gray8 {
                    PngColor::Grayscale
                } else {
                    PngColor::Rgb
                },
                png_samples(format, (width * height) as nat, bytes),
            ),
        ),
{
}

/// While an image waits to be decoded, the chunks that came are counted against all.
pub proof fn law_waiting_words(s: ImageStream)
    ensures
        exists|a: Seq<char>, b: Seq<char>, c: Seq<char>|
            is_written(a, s.image_idx as nat) && is_written(b, s.received_count as nat)
                && is_written(c, s.total_chunks as nat) && waiting_words(Some(s)) == #[trigger] (
            "image #"@ + a + ": "@ + b + "/"@ + c) + " chunks; decoding\u{2026}"@,
{
    let a = decimal(s.image_idx as nat);
    let b = decimal(s.received_count as nat);
    let c = decimal(s.total_chunks as nat);
    lemma_written(s.image_idx as nat);
    lemma_written(s.received_count as nat);
    lemma_written(s.total_chunks as nat);
    assert(waiting_words(Some(s)) == ("image #"@ + a + ": "@ + b + "/"@ + c)
        + " chunks; decoding\u{2026}"@);
}

/// A canvas is what its fields say.
pub proof fn law_canvas_by_contents(canvas: Option<Canvas>)
    ensures
        canvas is None <==> canvas_view(canvas) is None,
        canvas matches Some(c) ==> {
            let m = canvas_view(canvas)->0;
            m == c@ && m.width == c.width && m.height == c.height && m.pixels == c.pixels@
        },
{
}

/// So is a decoded picture.
pub proof fn law_picture_by_contents(picture: Option<Picture>)
    ensures
        picture is None <==> picture_parts(picture) is None,
        picture matches Some(p) ==> picture_parts(picture) == Some(
            (p.width, p.height, p.format, p.pixels@),
        ),
{
}

/// And a file, or the reason why there is none.
pub proof fn law_file_by_contents(res: Result<Vec<u8>, String>)
    ensures
        res matches Ok(file) ==> file_view(res) == Ok::<Seq<u8>, Seq<char>>(file@),
        res matches Err(text) ==> file_view(res) == Err::<Seq<u8>, Seq<char>>(text@),
{
}

/// Payloads that were not taken are counted while no image has come, beside those that were.
pub proof fn law_words_without_images(misses: u32, hits: u32)
    ensures
        misses == 0 ==> no_image_words(misses, hits) == "no image chunks received yet"@,
        misses > 0 ==> exists|a: Seq<char>, b: Seq<char>|
            is_written(a, misses as nat) && is_written(b, hits as nat) && no_image_words(
                misses,
                hits,
            ) == #[trigger] ("no image chunks yet | header miss="@ + a + " hit="@ + b)
                + " (check [downlink.image] header_signature)"@,
{
    if misses > 0 {
        let a = decimal(misses as nat);
        let b = decimal(hits as nat);
        lemma_written(misses as nat);
        lemma_written(hits as nat);
        assert(no_image_words(misses, hits) == ("no image chunks yet | header miss="@ + a
            + " hit="@ + b) + " (check [downlink.image] header_signature)"@);
    }
}

/// What is shown is shown as it should be: in the same way and size, and to the last pixel
/// where that is owed.
pub proof fn law_shown_as_it_should_be(
    shown: (CanvasModel, ImageRenderKind),
    model: (CanvasModel, ImageRenderKind),
    exact: bool,
)
    requires
        render::shows(shown, model, exact),
    ensures
        shown.1 == model.1,
        shown.0.width == model.0.width && shown.0.height == model.0.height,
        shown.0.pixels.len() == model.0.pixels.len(),
        exact ==> shown == model,
{
}

/// The pixels of a JPEG stream are owed wherever it is shown as bytes, and wherever the
/// decoded picture has one byte for each grey pixel or three for each coloured one.
pub proof fn law_when_pixels_are_owed(chunk_bytes: u32, stream: ImageStream)
    ensures
        ({
            let bytes = stream.bytes@;
            let begins = bytes.len() >= 2 && bytes[0] == 0xFF && bytes[1] == 0xD8;
            &&& !begins ==> jpeg_byte_wide(chunk_bytes, stream)
            &&& match readable_form(chunk_bytes, stream) {
                None => jpeg_byte_wide(chunk_bytes, stream),
                Some(form) => match jpeg_picture(form) {
                    Some((w, h, PictureFormat::L8, samples)) => samples.len() == w * h
                        ==> jpeg_byte_wide(chunk_bytes, stream),
                    Some((w, h, PictureFormat::Rgb24, samples)) => samples.len() == 3 * (w * h)
                        ==> jpeg_byte_wide(chunk_bytes, stream),
                    _ => true,
                },
            }
        }),
{
    let bytes = stream.bytes@;
    let run = leading_run(chunk_bytes, stream);
    reveal_with_fuel(first_readable, 5);
    assert(terminated(bytes) =~= ended(bytes));
    assert(terminated(bytes.take(run)) =~= ended(bytes.take(run)));
    let shapes = jpeg_shapes(chunk_bytes, stream);
    assert(shapes[0] == bytes);
    assert(shapes[1] == ended(bytes));
}

} // verus!
