//! The image view: which image is shown, when its picture is drawn anew, and what is
//! said of it.
use vstd::prelude::*;
use vstd::string::StringExecFns;
use crate::bitmap::bit_at;
use crate::image::{ImageDecoder, ImageStream};
use crate::receiver::{mode_label, mode_words};
use crate::render::{Canvas, CanvasModel, Rgb};
use crate::sstv::SstvImage;
use crate::text::{decimal, decimal_string};

verus! {

/// The first image from position `from` on that has this index.
pub open spec fn image_at(images: Seq<ImageStream>, idx: u32, from: int) -> Option<int>
    decreases images.len() - from,
{
    if from >= images.len() {
        None
    } else if images[from].image_idx == idx {
        Some(from)
    } else {
        image_at(images, idx, from + 1)
    }
}

/// The position of the image that is shown: the chosen one, or the first where that is
/// gone. Nothing where there are no images.
pub open spec fn shown_at(images: Seq<ImageStream>, active_idx: u32) -> Option<int> {
    if images.len() == 0 {
        None
    } else {
        match image_at(images, active_idx, 0) {
            Some(i) => Some(i),
            None => Some(0),
        }
    }
}

/// The position of the image that is shown: the chosen one, or the first where that is
/// gone. Nothing where there are no images.
pub fn shown_image(images: &Vec<ImageStream>, active_idx: u32) -> (at: Option<usize>)
    ensures
        match (at, shown_at(images@, active_idx)) {
            (Some(i), Some(j)) => i == j && i < images@.len(),
            (None, None) => true,
            _ => false,
        },
{
    if images.len() == 0 {
        return None;
    }
    let mut i: usize = 0;
    while i < images.len()
        invariant
            i <= images@.len(),
            image_at(images@, active_idx, 0) == image_at(images@, active_idx, i as int),
        decreases images@.len() - i,
    {
        if images[i].image_idx == active_idx {
            return Some(i);
        }
        i = i + 1;
    }
    Some(0)
}

/// What happens to the picture on the screen.
#[derive(Debug, Clone, Copy, PartialEq, Eq, Structural)]
pub struct PicturePlan {
    /// The old picture is discarded first.
    pub discard: bool,
    /// The image is drawn.
    pub draw: bool,
}

/// What happens to the picture: one of another image is discarded, so that it does not
/// stand in for the new one; the image is drawn where it has changed or no picture is
/// left. A picture of the same image stays while nothing changes.
pub fn plan_picture(
    picture_of: Option<u32>,
    has_picture: bool,
    shown: Option<u32>,
    dirty: bool,
) -> (plan: PicturePlan)
    ensures
        plan.discard == (picture_of != shown),
        plan.draw == (dirty || !has_picture || picture_of != shown),
{
    let discard: bool = match (picture_of, shown) {
        (Some(a), Some(b)) => a != b,
        (None, None) => false,
        _ => true,
    };
    PicturePlan { discard, draw: dirty || !has_picture || discard }
}

/// What is shown in place of a picture.
pub open spec fn waiting_words(image: Option<ImageStream>) -> Seq<char> {
    match image {
        None => "waiting for image chunks\u{2026}"@,
        Some(s) => "image #"@ + decimal(s.image_idx as nat) + ": "@ + decimal(
            s.received_count as nat,
        ) + "/"@ + decimal(s.total_chunks as nat) + " chunks; decoding\u{2026}"@,
    }
}

/// What is shown in place of a picture.
pub fn waiting_label(image: Option<&ImageStream>) -> (text: String)
    ensures
        text@ == waiting_words(
            match image {
                Some(s) => Some(*s),
                None => None,
            },
        ),
{
    match image {
        None => "waiting for image chunks\u{2026}".to_string(),
        Some(s) => "image #".to_string().concat(decimal_string(s.image_idx as u64).as_str()).concat(
            ": ",
        ).concat(decimal_string(s.received_count as u64).as_str()).concat("/").concat(
            decimal_string(s.total_chunks as u64).as_str(),
        ).concat(" chunks; decoding\u{2026}"),
    }
}

/// What is said while there are no images.
pub open spec fn no_image_words(misses: u32, hits: u32) -> Seq<char> {
    if misses > 0 {
        "no image chunks yet | header miss="@ + decimal(misses as nat) + " hit="@ + decimal(
            hits as nat,
        ) + " (check [downlink.image] header_signature)"@
    } else {
        "no image chunks received yet"@
    }
}

/// What is said while there are no images: where payloads have come that no header
/// fits, their number and a hint.
pub fn no_image_label(misses: u32, hits: u32) -> (text: String)
    ensures
        text@ == no_image_words(misses, hits),
{
    if misses > 0 {
        "no image chunks yet | header miss=".to_string().concat(
            decimal_string(misses as u64).as_str(),
        ).concat(" hit=").concat(decimal_string(hits as u64).as_str()).concat(
            " (check [downlink.image] header_signature)",
        )
    } else {
        "no image chunks received yet".to_string()
    }
}

/// What is said of the shown image; `percent` has one decimal.
pub fn image_label(stream: &ImageStream, percent: &str) -> (text: String)
    ensures
        text@ == "image #"@ + decimal(stream.image_idx as nat) + ": "@ + decimal(
            stream.received_count as nat,
        ) + "/"@ + decimal(stream.total_chunks as nat) + " chunks ("@ + percent@ + "%) | "@
            + decimal(stream.bytes@.len()) + " bytes"@,
{
    "image #".to_string().concat(decimal_string(stream.image_idx as u64).as_str()).concat(
        ": ",
    ).concat(decimal_string(stream.received_count as u64).as_str()).concat("/").concat(
        decimal_string(stream.total_chunks as u64).as_str(),
    ).concat(" chunks (").concat(percent).concat("%) | ").concat(
        decimal_string(stream.bytes.len() as u64).as_str(),
    ).concat(" bytes")
}

/// A cell of the packet grid.
#[derive(Debug, Clone, Copy, PartialEq, Eq, Structural)]
pub enum GridCell {
    /// The chunk has not been received.
    Missing,
    /// The chunk has been received.
    Received,
    /// The chunk was received last.
    Latest,
}

/// The cell of a chunk.
pub open spec fn cell_of(stream: ImageStream, idx: u32) -> GridCell {
    if stream.received_count > 0 && idx == stream.last_chunk_idx {
        GridCell::Latest
    } else if bit_at(stream.received_chunks@, idx as int) {
        GridCell::Received
    } else {
        GridCell::Missing
    }
}

/// The cells of the packet grid, one per chunk.
pub fn packet_grid(stream: &ImageStream) -> (cells: Vec<GridCell>)
    ensures
        cells@ == Seq::new(stream.total_chunks as nat, |i: int| cell_of(*stream, i as u32)),
{
    let mut cells: Vec<GridCell> = Vec::new();
    let total: u32 = stream.total_chunks;
    let mut idx: u32 = 0;
    while idx < total
        invariant
            idx <= total,
            total == stream.total_chunks,
            cells@ == Seq::new(idx as nat, |i: int| cell_of(*stream, i as u32)),
        decreases total - idx,
    {
        let received: bool = stream.chunk_received(idx);
        let cell = if stream.received_count > 0 && idx == stream.last_chunk_idx {
            GridCell::Latest
        } else if received {
            GridCell::Received
        } else {
            GridCell::Missing
        };
        cells.push(cell);
        idx = idx + 1;
        assert(cells@ =~= Seq::new(idx as nat, |i: int| cell_of(*stream, i as u32)));
    }
    cells
}

/// The heading of the packet grid.
pub fn grid_title(stream: Option<&ImageStream>) -> (text: String)
    ensures
        text@ == (match stream {
            None => "no chunks"@,
            Some(s) => if s.total_chunks == 0 {
                "0 chunks"@
            } else {
                "packets  "@ + decimal(s.received_count as nat) + "/"@ + decimal(
                    s.total_chunks as nat,
                )
            },
        }),
{
    match stream {
        None => "no chunks".to_string(),
        Some(s) => {
            if s.total_chunks == 0 {
                "0 chunks".to_string()
            } else {
                "packets  ".to_string().concat(
                    decimal_string(s.received_count as u64).as_str(),
                ).concat("/").concat(decimal_string(s.total_chunks as u64).as_str())
            }
        },
    }
}

/// The kind of file in which the shown image is saved, or why it cannot be saved.
pub fn plan_save(images: &Vec<ImageStream>, active_idx: u32, decoder: ImageDecoder) -> (res: Result<
    (usize, ImageDecoder),
    String,
>)
    ensures
        match (res, shown_at(images@, active_idx)) {
            (Ok((i, d)), Some(j)) => i == j && i < images@.len() && d == decoder,
            (Err(text), None) => text@ == "no image stream available"@,
            _ => false,
        },
{
    match shown_image(images, active_idx) {
        Some(i) => Ok((i, decoder)),
        None => Err("no image stream available".to_string()),
    }
}

/// The caption of the button that saves an image.
pub fn save_label(decoder: ImageDecoder) -> (text: &'static str)
    ensures
        text@ == (match decoder {
            ImageDecoder::Jpeg => "Save JPEG"@,
            ImageDecoder::Raw => "Save PNG"@,
        }),
{
    match decoder {
        ImageDecoder::Jpeg => "Save JPEG",
        ImageDecoder::Raw => "Save PNG",
    }
}

/// What is said of the latest SSTV image.
pub fn sstv_label(image: &Option<SstvImage>) -> (text: String)
    ensures
        text@ == (match *image {
            Some(i) => "SSTV "@ + mode_words(i.mode) + ": "@ + decimal(i.width as nat) + "x"@
                + decimal(i.height as nat),
            None => "SSTV: no image decoded yet"@,
        }),
{
    match image {
        Some(i) => "SSTV ".to_string().concat(mode_label(i.mode)).concat(": ").concat(
            decimal_string(i.width as u64).as_str(),
        ).concat("x").concat(decimal_string(i.height as u64).as_str()),
        None => "SSTV: no image decoded yet".to_string(),
    }
}

/// The larger of a size and one.
pub open spec fn side(n: u32) -> nat {
    if n == 0 {
        1
    } else {
        n as nat
    }
}

/// The canvas of an SSTV image, where its pixels are complete.
pub open spec fn sstv_model(image: SstvImage) -> Option<CanvasModel> {
    let count = side(image.width) * side(image.height);
    if image.pixels@.len() >= 3 * count {
        Some(
            CanvasModel {
                width: side(image.width),
                height: side(image.height),
                pixels: Seq::new(
                    count,
                    |k: int|
                        Rgb {
                            r: image.pixels@[3 * k],
                            g: image.pixels@[3 * k + 1],
                            b: image.pixels@[3 * k + 2],
                        },
                ),
            },
        )
    } else {
        None
    }
}

/// Lay an SSTV image out as a canvas. An image whose pixels are incomplete is not
/// drawn.
pub fn sstv_canvas(image: &SstvImage) -> (canvas: Option<Canvas>)
    ensures
        match (canvas, sstv_model(*image)) {
            (Some(c), Some(m)) => c@ == m,
            (None, None) => true,
            _ => false,
        },
{
    let width: u32 = if image.width == 0 { 1 } else { image.width };
    let height: u32 = if image.height == 0 { 1 } else { image.height };
    proof {
        assert(width * height <= 0xffff_ffff * 0xffff_ffff) by (nonlinear_arith)
            requires
                width <= 0xffff_ffff,
                height <= 0xffff_ffff,
        ;
        assert(width * height >= 0) by (nonlinear_arith);
    }
    let count: u64 = width as u64 * height as u64;
    if (image.pixels.len() / 3) as u64 >= count {
        let total: usize = count as usize;
        let mut pixels: Vec<Rgb> = Vec::new();
        let mut k: usize = 0;
        while k < total
            invariant
                k <= total,
                3 * total <= image.pixels@.len(),
                pixels@ == Seq::new(
                    k as nat,
                    |j: int|
                        Rgb {
                            r: image.pixels@[3 * j],
                            g: image.pixels@[3 * j + 1],
                            b: image.pixels@[3 * j + 2],
                        },
                ),
            decreases total - k,
        {
            let len: usize = image.pixels.len();
            assert(3 * k + 2 < len);
            pixels.push(
                Rgb {
                    r: image.pixels[3 * k],
                    g: image.pixels[3 * k + 1],
                    b: image.pixels[3 * k + 2],
                },
            );
            k = k + 1;
            assert(pixels@ =~= Seq::new(
                k as nat,
                |j: int|
                    Rgb {
                        r: image.pixels@[3 * j],
                        g: image.pixels@[3 * j + 1],
                        b: image.pixels@[3 * j + 2],
                    },
            ));
        }
        let canvas = Canvas { width, height, pixels };
        assert(canvas@ =~= sstv_model(*image)->0);
        Some(canvas)
    } else {
        None
    }
}

/// A chosen image stays shown while it is there, whatever other images arrive after
/// it.
pub proof fn law_new_images_do_not_take_over(
    images: Seq<ImageStream>,
    more: Seq<ImageStream>,
    active_idx: u32,
)
    requires
        image_at(images, active_idx, 0) is Some,
    ensures
        shown_at(images + more, active_idx) == shown_at(images, active_idx),
{
    lemma_image_at(images, more, active_idx, 0);
}

proof fn lemma_image_at(
    images: Seq<ImageStream>,
    more: Seq<ImageStream>,
    idx: u32,
    from: int,
)
    requires
        0 <= from <= images.len(),
        image_at(images, idx, from) is Some,
    ensures
        image_at(images + more, idx, from) == image_at(images, idx, from),
    decreases images.len() - from,
{
    if from < images.len() {
        assert((images + more)[from] == images[from]);
        if images[from].image_idx != idx {
            lemma_image_at(images, more, idx, from + 1);
        }
    }
}

} // verus!
