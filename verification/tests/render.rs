//! Showing and saving images.
use openhoshimi::image::{ImageDecoder, ImageSnapshot, ImageStream, PixelFormat};
use openhoshimi::render::{
    canvas_of_picture, decode_jpeg_bytes, encode_pixels_for_png, first_missing_chunk_byte,
    jpeg_export_bytes, jpeg_file_name, png_export_bytes, png_file_name, render_image,
    render_image_jpeg, render_image_raw, render_jpeg_bytes_as_grayscale, ImageRenderKind, Picture,
    PictureFormat, Rgb,
};

fn stream(bytes: Vec<u8>, received: u64, total_chunks: u32) -> ImageStream {
    ImageStream {
        image_idx: 3,
        bytes,
        received_chunks: vec![received],
        total_chunks,
        received_count: received.count_ones(),
        last_offset: 0,
        last_chunk_idx: 0,
    }
}

fn snapshot(decoder: ImageDecoder, width: u32, height: u32, pixel_format: PixelFormat) -> ImageSnapshot {
    ImageSnapshot { decoder, width, height, pixel_format, chunk_bytes: 16, images: vec![] }
}

fn gray(v: u8) -> Rgb {
    Rgb { r: v, g: v, b: v }
}

/// A baseline JPEG of eight by eight pixels in mid grey: every coefficient is zero.
fn grey_jpeg() -> Vec<u8> {
    let mut out = vec![0xFF, 0xD8];
    out.extend([0xFF, 0xDB, 0x00, 0x43, 0x00]);
    out.extend([1u8; 64]);
    out.extend([0xFF, 0xC0, 0x00, 0x0B, 8, 0, 8, 0, 8, 1, 1, 0x11, 0]);
    for class in [0x00, 0x10] {
        out.extend([0xFF, 0xC4, 0x00, 0x14, class, 1]);
        out.extend([0u8; 15]);
        out.push(0);
    }
    out.extend([0xFF, 0xDA, 0x00, 0x08, 1, 1, 0x00, 0, 63, 0]);
    out.push(0x3F);
    out.extend([0xFF, 0xD9]);
    out
}

#[test]
fn raw_pixels_are_mapped() {
    let shot = snapshot(ImageDecoder::Raw, 2, 2, PixelFormat::Gray8);
    let canvas = render_image_raw(&shot, &stream(vec![1, 2, 3], 1, 1));
    assert_eq!(canvas.pixels, [gray(1), gray(2), gray(3), gray(0)]);

    let shot = snapshot(ImageDecoder::Raw, 3, 1, PixelFormat::Rgb565);
    let canvas = render_image_raw(&shot, &stream(vec![0xF8, 0x00, 0x07, 0xE0, 0x12], 1, 1));
    assert_eq!(
        canvas.pixels,
        [Rgb { r: 255, g: 0, b: 0 }, Rgb { r: 0, g: 255, b: 0 }, gray(0)]
    );

    let shot = snapshot(ImageDecoder::Raw, 2, 1, PixelFormat::Rgb888);
    let canvas = render_image_raw(&shot, &stream(vec![9, 8, 7, 6, 5], 1, 1));
    assert_eq!(canvas.pixels, [Rgb { r: 9, g: 8, b: 7 }, gray(0)]);
    let (_, kind) = render_image(&shot, &stream(vec![], 0, 0));
    assert_eq!(kind, ImageRenderKind::Raw);
}

#[test]
fn rgb565_is_widened_by_repeating_bits() {
    let shot = snapshot(ImageDecoder::Raw, 1, 1, PixelFormat::Rgb565);
    // 10101 010101 01010
    let canvas = render_image_raw(&shot, &stream(vec![0b1010_1010, 0b1010_1010], 1, 1));
    assert_eq!(canvas.pixels, [Rgb { r: 0b1010_1101, g: 0b0101_0101, b: 0b0101_0010 }]);
}

#[test]
fn preview_shows_received_rows_and_a_checkerboard() {
    let mut shot = snapshot(ImageDecoder::Jpeg, 0, 0, PixelFormat::Gray8);
    shot.chunk_bytes = 5;
    let canvas =
        render_jpeg_bytes_as_grayscale(&shot, &stream(vec![1, 2, 3, 4, 5, 6, 7, 8, 9, 10], 1, 2));
    assert_eq!((canvas.width, canvas.height), (5, 2));
    assert_eq!(&canvas.pixels[..5], [gray(1), gray(2), gray(3), gray(4), gray(5)]);
    let dark = Rgb { r: 36, g: 38, b: 42 };
    let light = Rgb { r: 60, g: 62, b: 68 };
    assert_eq!(&canvas.pixels[5..], [dark, dark, dark, dark, light]);
    shot.chunk_bytes = 0;
    let canvas = render_jpeg_bytes_as_grayscale(&shot, &stream(vec![], 0, 0));
    assert_eq!((canvas.width, canvas.height, canvas.pixels.len()), (1, 1, 1));
}

#[test]
fn leading_run_ends_at_the_first_gap() {
    let shot = snapshot(ImageDecoder::Jpeg, 0, 0, PixelFormat::Gray8);
    assert_eq!(first_missing_chunk_byte(&shot, &stream(vec![0; 64], 0b1011, 4)), 32);
    assert_eq!(first_missing_chunk_byte(&shot, &stream(vec![0; 64], 0b1111, 4)), 64);
    assert_eq!(first_missing_chunk_byte(&shot, &stream(vec![0; 20], 0b0011, 4)), 20);
}

#[test]
fn complete_jpeg_is_decoded() {
    let jpeg = grey_jpeg();
    let canvas = decode_jpeg_bytes(&jpeg).expect("decodes");
    assert_eq!((canvas.width, canvas.height), (8, 8));
    assert_eq!(canvas.pixels, vec![gray(128); 64]);
    assert!(decode_jpeg_bytes(&[1, 2, 3]).is_none());
    assert!(decode_jpeg_bytes(&[0xFF, 0xD8]).is_none());
}

#[test]
fn jpeg_without_its_end_is_still_shown() {
    let shot = snapshot(ImageDecoder::Jpeg, 0, 0, PixelFormat::Gray8);
    let mut jpeg = grey_jpeg();
    let whole = stream(jpeg.clone(), u64::MAX, 10);
    let (canvas, kind) = render_image_jpeg(&shot, &whole);
    assert_eq!(kind, ImageRenderKind::JpegDecoded);
    assert_eq!(canvas.pixels, vec![gray(128); 64]);
    assert_eq!(jpeg_export_bytes(&shot, &whole), jpeg);

    jpeg.truncate(jpeg.len() - 2);
    let cut = stream(jpeg, u64::MAX, 10);
    let (canvas, kind) = render_image(&shot, &cut);
    assert_eq!(kind, ImageRenderKind::JpegDecoded);
    assert_eq!(canvas.pixels, vec![gray(128); 64]);
    let saved = jpeg_export_bytes(&shot, &cut);
    assert_eq!(decode_jpeg_bytes(&saved).expect("decodes").pixels, vec![gray(128); 64]);
}

#[test]
fn stream_without_a_header_is_previewed() {
    let shot = snapshot(ImageDecoder::Jpeg, 0, 0, PixelFormat::Gray8);
    let (canvas, kind) = render_image_jpeg(&shot, &stream(vec![7; 16], 1, 1));
    assert_eq!(kind, ImageRenderKind::JpegBytesPreview);
    assert_eq!(canvas.pixels, vec![gray(7); 16]);
    assert_eq!(
        jpeg_export_bytes(&shot, &stream(vec![7; 3], 1, 1)),
        [7, 7, 7, 0xFF, 0xD9]
    );
}

#[test]
fn pictures_in_other_layouts_are_not_shown() {
    let picture = |format, pixels| Some(Picture { width: 1, height: 1, format, pixels });
    let canvas = canvas_of_picture(picture(PictureFormat::Rgb24, vec![1, 2, 3])).expect("colour");
    assert_eq!(canvas.pixels, [Rgb { r: 1, g: 2, b: 3 }]);
    let canvas = canvas_of_picture(picture(PictureFormat::L8, vec![])).expect("grey");
    assert_eq!(canvas.pixels, [gray(0)]);
    assert!(canvas_of_picture(picture(PictureFormat::L16, vec![1, 2])).is_none());
    assert!(canvas_of_picture(picture(PictureFormat::Cmyk32, vec![1, 2, 3, 4])).is_none());
    assert!(canvas_of_picture(None).is_none());
}

fn read_png(file: &[u8]) -> (u32, u32, Vec<u8>) {
    let decoder = png::Decoder::new(std::io::Cursor::new(file));
    let mut reader = decoder.read_info().expect("header");
    let mut pixels = vec![0; reader.output_buffer_size()];
    let info = reader.next_frame(&mut pixels).expect("pixels");
    pixels.truncate(info.buffer_size());
    (info.width, info.height, pixels)
}

#[test]
fn png_holds_the_pixels_of_the_canvas() {
    for format in [PixelFormat::Gray8, PixelFormat::Rgb565, PixelFormat::Rgb888] {
        let shot = snapshot(ImageDecoder::Raw, 3, 2, format);
        let s = stream((0..18).map(|i| i * 13).collect(), 1, 1);
        let file = png_export_bytes(&shot, &s).expect("png");
        assert_eq!(&file[..8], [137, 80, 78, 71, 13, 10, 26, 10]);
        let (width, height, samples) = read_png(&file);
        assert_eq!((width, height), (3, 2));
        assert_eq!(samples, encode_pixels_for_png(&shot, &s));
        let canvas = render_image_raw(&shot, &s);
        for (k, p) in canvas.pixels.iter().enumerate() {
            if format == PixelFormat::Gray8 {
                assert_eq!(*p, gray(samples[k]));
            } else {
                assert_eq!([p.r, p.g, p.b], samples[3 * k..3 * k + 3]);
            }
        }
    }
}

#[test]
fn empty_pictures_are_refused() {
    let s = stream(vec![], 0, 0);
    let narrow = snapshot(ImageDecoder::Raw, 0, 4, PixelFormat::Gray8);
    assert_eq!(
        png_export_bytes(&narrow, &s),
        Err("png header: Zero width not allowed".to_string())
    );
    let flat = snapshot(ImageDecoder::Raw, 4, 0, PixelFormat::Rgb888);
    assert_eq!(
        png_export_bytes(&flat, &s),
        Err("png header: Zero height not allowed".to_string())
    );
}

#[test]
fn partial_last_pixel_is_kept_in_the_file() {
    let shot = snapshot(ImageDecoder::Raw, 1, 1, PixelFormat::Rgb888);
    let s = stream(vec![5, 6], 1, 1);
    assert_eq!(encode_pixels_for_png(&shot, &s), [5, 6, 0]);
    assert_eq!(render_image_raw(&shot, &s).pixels, [gray(0)]);
}

#[test]
fn proposed_names() {
    assert_eq!(jpeg_file_name(2, 1234), "openhoshimi_image_2_1234b.jpg");
    assert_eq!(png_file_name(0, 320, 240), "openhoshimi_image_0_320x240.png");
}

/// A picture without texture, of the given frame marker, sides, sampling factors of its
/// components and scan parameters. All components stand in one scan.
fn flat_jpeg(marker: u8, height: u16, width: u16, sampling: &[u8], scan: [u8; 3]) -> Vec<u8> {
    let n = sampling.len() as u8;
    let mut out = vec![0xFF, 0xD8];
    out.extend([0xFF, 0xDB, 0x00, 0x43, 0x00]);
    out.extend([1u8; 64]);
    out.extend([0xFF, marker, 0x00, 8 + 3 * n, 8]);
    out.extend(height.to_be_bytes());
    out.extend(width.to_be_bytes());
    out.push(n);
    for (i, &factors) in sampling.iter().enumerate() {
        out.extend([i as u8 + 1, factors, 0]);
    }
    for class in [0x00, 0x10] {
        out.extend([0xFF, 0xC4, 0x00, 0x14, class, 1]);
        out.extend([0u8; 15]);
        out.push(0);
    }
    out.extend([0xFF, 0xDA, 0x00, 6 + 2 * n, n]);
    for i in 0..n {
        out.extend([i + 1, 0x00]);
    }
    out.extend(scan);
    out.extend([0x00, 0xFF, 0xD9]);
    out
}

#[test]
fn frames_too_large_for_the_decoder_are_not_shown() {
    let whole = [0, 63, 0];
    assert!(decode_jpeg_bytes(&flat_jpeg(0xC0, 8, 8, &[0x11], whole)).is_some());
    let tall = flat_jpeg(0xC0, 65529, 1, &[0x11], whole);
    assert!(decode_jpeg_bytes(&tall).is_none());
    assert!(decode_jpeg_bytes(&flat_jpeg(0xC0, 1, 65529, &[0x33], whole)).is_none());
    assert!(decode_jpeg_bytes(&flat_jpeg(0xC2, 65529, 1, &[0x33], [0, 0, 0])).is_none());
    let shot = snapshot(ImageDecoder::Jpeg, 0, 0, PixelFormat::Gray8);
    let (_, kind) = render_image_jpeg(&shot, &stream(tall, u64::MAX, 10));
    assert_eq!(kind, ImageRenderKind::JpegBytesPreview);
}

#[test]
fn large_frames_that_can_be_counted_are_shown() {
    let whole = [0, 63, 0];
    let sized = |bytes: Vec<u8>, width: u32, height: u32| {
        let canvas = decode_jpeg_bytes(&bytes).expect("decodes");
        assert_eq!((canvas.width, canvas.height), (width, height));
        assert!(canvas.pixels.iter().all(|&p| p == gray(128)));
    };
    sized(flat_jpeg(0xC0, 65528, 1, &[0x11], whole), 1, 65528);
    // columns are only too many where three blocks go to a unit
    sized(flat_jpeg(0xC0, 1, 65535, &[0x11], whole), 65535, 1);
    sized(flat_jpeg(0xC0, 1, 65528, &[0x33], whole), 65528, 1);
    // components in one scan are counted in units
    sized(flat_jpeg(0xC0, 65535, 1, &[0x11, 0x11, 0x11], whole), 1, 65535);
    // only the scan that completes a component counts one row further
    sized(flat_jpeg(0xC2, 65535, 1, &[0x11], [0, 0, 0]), 1, 65535);
}

#[test]
fn bytes_like_a_frame_header_are_no_frame_header() {
    let like = [0xFF, 0xC0, 0x00, 0x0B, 8, 0xFF, 0xFF, 0xFF, 0xFF, 1, 1, 0x33, 0];
    let jpeg = grey_jpeg();
    for marker in [0xFE, 0xE1] {
        let mut bytes = jpeg[..2].to_vec();
        bytes.extend([0xFF, marker, 0x00, 2 + like.len() as u8]);
        bytes.extend(like);
        bytes.extend(&jpeg[2..]);
        let canvas = decode_jpeg_bytes(&bytes).expect("decodes");
        assert_eq!(canvas.pixels, vec![gray(128); 64]);
    }
    let mut trailing = jpeg.clone();
    trailing.extend(like);
    assert_eq!(decode_jpeg_bytes(&trailing).expect("decodes").pixels, vec![gray(128); 64]);
}
