//! The classical recogniser: how a crop is prepared for it in each of its
//! modes, and how its hypotheses become one result.

use crate::ocr::clahe::{clahe, clahe_pixels};
use crate::ocr::sauvola::{sauvola_pixels, sauvola_threshold};
use crate::ocr::OcrResult;
use crate::raster::{
    encode_png, is_scaled_by, lemma_pixel_index, preview_text, resize_lanczos3, to_luma8,
    GrayImage, PixelLayout, RgbImage, MAX_SIDE,
};
use crate::text::{trim, trimmed};
use vstd::arithmetic::div_mod::lemma_fundamental_div_mod_converse;
use vstd::prelude::*;
use vstd::string::StringExecFns;

verus! {

/// Upscale factor applied before processing to improve recognition on small crops.
pub const UPSCALE_FACTOR: u32 = 6;

/// Mean pixel brightness below which the image is taken to have a dark
/// background and is inverted.
pub const DARK_BG_THRESHOLD: u64 = 140;

/// White border added around the processed image to help the recogniser
/// find the text block.
pub const BORDER_PAD: u32 = 15;

/// Tile size of the contrast equalisation, in pixels of the upscaled image.
pub const CLAHE_TILE_SIZE: u32 = 32;

/// Clip limit of the contrast equalisation, as a multiple of the average
/// bin count.
pub const CLAHE_CLIP_LIMIT: u32 = 2;

/// Mean brightness below which the image is brightened by a gamma curve of
/// exponent one half.
pub const GAMMA_DARK_THRESHOLD: u64 = 80;

/// The widest and the highest crop that the full pipeline takes.
pub const MAX_CROP_SIDE: u32 = (MAX_SIDE - 2 * BORDER_PAD) / UPSCALE_FACTOR;

/// How to prepare the crop before handing it to the recogniser.
#[derive(Debug, Clone, Copy, PartialEq, Eq)]
pub enum Preprocess {
    /// Full pipeline: upscale, luminance, invert, gamma, contrast
    /// equalisation, blur, adaptive threshold, morphological opening.
    Binary,
    /// Same pipeline as `Binary` but stops at enhanced grayscale.
    Gray,
    /// Luminance only.
    RawGray,
    /// The RGB bytes as they are.
    RawRgb,
    /// The red channel, then the full `Binary` pipeline.
    ChannelR,
    /// The green channel, then the full `Binary` pipeline.
    ChannelG,
    /// The blue channel, then the full `Binary` pipeline.
    ChannelB,
}

impl Preprocess {
    /// The modes that end in a black and white image.
    pub open spec fn binarizes(&self) -> bool {
        matches!(
            self,
            Preprocess::Binary | Preprocess::ChannelR | Preprocess::ChannelG | Preprocess::ChannelB
        )
    }

    /// The modes that run the full pipeline.
    pub open spec fn runs_pipeline(&self) -> bool {
        !matches!(self, Preprocess::RawGray | Preprocess::RawRgb)
    }
}

/// The sum of the pixel values.
pub open spec fn pixel_total(data: Seq<u8>) -> int
    decreases data.len(),
{
    if data.len() == 0 {
        0
    } else {
        pixel_total(data.drop_last()) + data.last()
    }
}

/// The mean pixel value, rounded down; 0 for an image without pixels.
pub open spec fn mean_level(data: Seq<u8>) -> int {
    if data.len() == 0 {
        0
    } else {
        pixel_total(data) / (data.len() as int)
    }
}

proof fn lemma_pixel_total_bound(data: Seq<u8>)
    ensures
        0 <= pixel_total(data) <= 255 * data.len(),
    decreases data.len(),
{
    if data.len() > 0 {
        lemma_pixel_total_bound(data.drop_last());
    }
}

/// The mean brightness of an image.
pub fn mean_brightness(gray: &GrayImage) -> (mean: u64)
    requires
        gray.fits(),
    ensures
        mean == mean_level(gray.data@),
{
    let n = gray.data.len();
    assert(n <= MAX_SIDE * MAX_SIDE) by (nonlinear_arith)
        requires
            n == gray.width * gray.height,
            gray.width <= MAX_SIDE,
            gray.height <= MAX_SIDE,
    ;
    let mut total: u64 = 0;
    let mut i: usize = 0;
    assert(gray.data@.take(0) =~= Seq::<u8>::empty());
    while i < n
        invariant
            i <= n,
            n == gray.data@.len(),
            n <= MAX_SIDE * MAX_SIDE,
            total == pixel_total(gray.data@.take(i as int)),
            total <= 255 * i,
        decreases n - i,
    {
        proof {
            assert(gray.data@.take(i + 1).drop_last() == gray.data@.take(i as int));
        }
        total = total + gray.data[i] as u64;
        i += 1;
    }
    assert(gray.data@.take(n as int) == gray.data@);
    if n == 0 {
        0
    } else {
        total / n as u64
    }
}

/// Every pixel replaced by 255 minus its value.
pub open spec fn inverted(data: Seq<u8>) -> Seq<u8> {
    Seq::new(data.len(), |k: int| (255 - data[k]) as u8)
}

/// Inverts the image where its mean brightness is below
/// `DARK_BG_THRESHOLD`, so that text is dark on a light background.
pub fn auto_invert(gray: GrayImage) -> (out: GrayImage)
    requires
        gray.fits(),
    ensures
        out.width == gray.width,
        out.height == gray.height,
        out.data@ == if mean_level(gray.data@) < DARK_BG_THRESHOLD {
            inverted(gray.data@)
        } else {
            gray.data@
        },
{
    if mean_brightness(&gray) >= DARK_BG_THRESHOLD {
        return gray;
    }
    let n = gray.data.len();
    let mut data: Vec<u8> = Vec::new();
    let mut i: usize = 0;
    while i < n
        invariant
            i <= n,
            n == gray.data@.len(),
            data@.len() == i,
            forall|k: int| 0 <= k < i ==> data@[k] == 255 - gray.data@[k],
        decreases n - i,
    {
        data.push(255 - gray.data[i]);
        i += 1;
    }
    assert(data@ =~= inverted(gray.data@));
    GrayImage { width: gray.width, height: gray.height, data }
}

/// `r` is the value `p` under a gamma curve of exponent one half:
/// `255 * sqrt(p / 255)`, that is the square root of `255 * p`, rounded to
/// the nearest integer.
pub open spec fn is_gamma_level(p: int, r: int) -> bool {
    &&& 0 <= r <= 255
    &&& 1020 * p < (2 * r + 1) * (2 * r + 1)
    &&& (r == 0 || (2 * r - 1) * (2 * r - 1) <= 1020 * p)
}

/// The table of the gamma curve: entry `p` is the output for the value `p`.
pub fn gamma_table() -> (lut: Vec<u8>)
    ensures
        lut@.len() == 256,
        forall|p: int| 0 <= p < 256 ==> is_gamma_level(p, #[trigger] lut@[p] as int),
{
    let mut lut: Vec<u8> = Vec::new();
    let mut r: u32 = 0;
    let mut p: u32 = 0;
    assert((2 * r + 1) * (2 * r + 1) == 1) by (nonlinear_arith)
        requires
            r == 0,
    ;
    while p < 256
        invariant
            p <= 256,
            r <= 255,
            lut@.len() == p,
            r == 0 || (2 * r - 1) * (2 * r - 1) <= 1020 * p,
            (2 * r + 1) * (2 * r + 1) <= 511 * 511,
            forall|q: int| 0 <= q < p ==> is_gamma_level(q, #[trigger] lut@[q] as int),
        decreases 256 - p,
    {
        while (2 * r + 1) * (2 * r + 1) <= 1020 * p
            invariant
                p < 256,
                r <= 255,
                r == 0 || (2 * r - 1) * (2 * r - 1) <= 1020 * p,
                (2 * r + 1) * (2 * r + 1) <= 511 * 511,
            decreases 255 - r,
        {
            assert(r <= 254) by (nonlinear_arith)
                requires
                    (2 * r + 1) * (2 * r + 1) <= 1020 * 255,
            ;
            r += 1;
            assert((2 * r + 1) * (2 * r + 1) <= 511 * 511) by (nonlinear_arith)
                requires
                    r <= 255,
            ;
        }
        lut.push(r as u8);
        p += 1;
    }
    lut
}

/// Brightens the image by the gamma curve where its mean brightness is
/// below `GAMMA_DARK_THRESHOLD`.
pub fn gamma_correct(gray: GrayImage) -> (out: GrayImage)
    requires
        gray.fits(),
    ensures
        out.width == gray.width,
        out.height == gray.height,
        out.data@.len() == gray.data@.len(),
        mean_level(gray.data@) >= GAMMA_DARK_THRESHOLD ==> out.data@ == gray.data@,
        mean_level(gray.data@) < GAMMA_DARK_THRESHOLD ==> forall|k: int|
            0 <= k < gray.data@.len() ==> is_gamma_level(
                gray.data@[k] as int,
                #[trigger] out.data@[k] as int,
            ),
{
    if mean_brightness(&gray) >= GAMMA_DARK_THRESHOLD {
        return gray;
    }
    let lut = gamma_table();
    let n = gray.data.len();
    let mut data: Vec<u8> = Vec::new();
    let mut i: usize = 0;
    while i < n
        invariant
            i <= n,
            n == gray.data@.len(),
            data@.len() == i,
            lut@.len() == 256,
            forall|p: int| 0 <= p < 256 ==> is_gamma_level(p, #[trigger] lut@[p] as int),
            forall|k: int|
                0 <= k < i ==> is_gamma_level(gray.data@[k] as int, #[trigger] data@[k] as int),
        decreases n - i,
    {
        data.push(lut[gray.data[i] as usize]);
        i += 1;
    }
    GrayImage { width: gray.width, height: gray.height, data }
}

/// Channel `channel` of every pixel of an RGB buffer.
pub open spec fn channel_of(data: Seq<u8>, channel: int) -> Seq<u8> {
    Seq::new((data.len() / 3) as nat, |k: int| data[3 * k + channel])
}

/// Extracts a single colour channel (0 red, 1 green, 2 blue) as a grayscale image.
pub fn extract_channel(img: &RgbImage, channel: usize) -> (gray: GrayImage)
    requires
        img.wf(),
        channel < 3,
    ensures
        gray.wf(),
        gray.width == img.width,
        gray.height == img.height,
        gray.data@ == channel_of(img.data@, channel as int),
{
    let len = img.data.len();
    let n = len / 3;
    assert(3 * (img.width as int) * (img.height as int) == 3 * (img.width * img.height))
        by (nonlinear_arith);
    let mut data: Vec<u8> = Vec::new();
    let mut k: usize = 0;
    while k < n
        invariant
            k <= n,
            channel < 3,
            img.data@.len() == 3 * n,
            len == img.data@.len(),
            data@.len() == k,
            forall|q: int| 0 <= q < k ==> data@[q] == img.data@[3 * q + channel],
        decreases n - k,
    {
        data.push(img.data[3 * k + channel]);
        k += 1;
    }
    assert(data@ =~= channel_of(img.data@, channel as int));
    GrayImage { width: img.width, height: img.height, data }
}

/// The pixel in column `x` of row `y` of the image `gray` with a white
/// border of `pad` pixels on every side.
pub open spec fn padded_level(gray: GrayImage, pad: int, x: int, y: int) -> u8 {
    if pad <= x < pad + gray.width && pad <= y < pad + gray.height {
        gray.pixel(x - pad, y - pad)
    } else {
        255
    }
}

/// The pixels of `gray` with a white border of `pad` pixels, row by row.
pub open spec fn padded_pixels(gray: GrayImage, pad: int) -> Seq<u8> {
    Seq::new(
        ((gray.width + 2 * pad) * (gray.height + 2 * pad)) as nat,
        |k: int| padded_level(gray, pad, k % (gray.width + 2 * pad), k / (gray.width + 2 * pad)),
    )
}

/// Puts a white border of `pad` pixels around the image.
pub fn pad_white(gray: &GrayImage, pad: u32) -> (out: GrayImage)
    requires
        gray.wf(),
        gray.width + 2 * pad <= MAX_SIDE,
        gray.height + 2 * pad <= MAX_SIDE,
    ensures
        out.fits(),
        out.width == gray.width + 2 * pad,
        out.height == gray.height + 2 * pad,
        out.data@ == padded_pixels(*gray, pad as int),
{
    let width: u32 = gray.width + 2 * pad;
    let height: u32 = gray.height + 2 * pad;
    let ghost want = padded_pixels(*gray, pad as int);
    let mut data: Vec<u8> = Vec::new();
    let mut y: u32 = 0;
    assert(y * width == 0) by (nonlinear_arith)
        requires
            y == 0,
    ;
    while y < height
        invariant
            gray.wf(),
            width == gray.width + 2 * pad,
            height == gray.height + 2 * pad,
            width <= MAX_SIDE,
            height <= MAX_SIDE,
            y <= height,
            want == padded_pixels(*gray, pad as int),
            data@.len() == y * width,
            forall|k: int| 0 <= k < data@.len() ==> data@[k] == want[k],
        decreases height - y,
    {
        let mut x: u32 = 0;
        while x < width
            invariant
                gray.wf(),
                width == gray.width + 2 * pad,
                height == gray.height + 2 * pad,
                width <= MAX_SIDE,
                height <= MAX_SIDE,
                y < height,
                x <= width,
                want == padded_pixels(*gray, pad as int),
                data@.len() == y * width + x,
                forall|k: int| 0 <= k < data@.len() ==> data@[k] == want[k],
            decreases width - x,
        {
            let inside = pad <= x && x - pad < gray.width && pad <= y && y - pad < gray.height;
            let v: u8 = if inside {
                gray.get(x - pad, y - pad)
            } else {
                255
            };
            proof {
                let k = y * width + x;
                lemma_fundamental_div_mod_converse(k, width as int, y as int, x as int);
                lemma_pixel_index(x as int, y as int, width as int, height as int);
                assert(want[k] == v);
            }
            data.push(v);
            x += 1;
        }
        y += 1;
        assert(y * width == (y - 1) * width + width) by (nonlinear_arith);
    }
    assert(height * width == width * height) by (nonlinear_arith);
    assert(data@ =~= want);
    GrayImage { width, height, data }
}

/// The image that the morphological opening with a square of 3 by 3
/// pixels gives for a buffer of `width` by `height` pixels.
pub uninterp spec fn opened_pixels(data: Seq<u8>, width: int, height: int) -> Seq<u8>;

/// `imageproc::filter::gaussian_blur_f32` with a standard deviation of 1:
/// an image of the same size. Nothing is claimed of the pixel values.
#[verifier::external_body]
fn gaussian_blur(gray: &GrayImage) -> (out: GrayImage)
    requires
        gray.fits(),
        gray.width > 0,
        gray.height > 0,
    ensures
        out.wf(),
        out.width == gray.width,
        out.height == gray.height,
{
    let buf = image::GrayImage::from_raw(gray.width, gray.height, gray.data.clone()).unwrap();
    let blurred = imageproc::filter::gaussian_blur_f32(&buf, 1u8.into());
    GrayImage { width: blurred.width(), height: blurred.height(), data: blurred.into_raw() }
}

/// `imageproc::morphology::open` with the norm `LInf` and the distance 1:
/// an image of the same size, each of whose pixels is 0 or 255.
#[verifier::external_body]
fn morph_open(gray: &GrayImage) -> (out: GrayImage)
    requires
        gray.fits(),
        gray.width > 0,
        gray.height > 0,
    ensures
        out.wf(),
        out.width == gray.width,
        out.height == gray.height,
        out.data@ == opened_pixels(gray.data@, gray.width as int, gray.height as int),
        forall|k: int| 0 <= k < out.data@.len() ==> out.data@[k] == 0 || out.data@[k] == 255,
{
    let buf = image::GrayImage::from_raw(gray.width, gray.height, gray.data.clone()).unwrap();
    let opened = imageproc::morphology::open(&buf, imageproc::distance_transform::Norm::LInf, 1);
    GrayImage { width: opened.width(), height: opened.height(), data: opened.into_raw() }
}

/// Turns an enhanced grayscale image into black and white: the adaptive
/// threshold, then a morphological opening that removes small light specks.
pub fn binarize(gray: &GrayImage) -> (out: GrayImage)
    requires
        gray.fits(),
        gray.width > 0,
        gray.height > 0,
    ensures
        out.wf(),
        out.width == gray.width,
        out.height == gray.height,
        out.data@ == opened_pixels(
            sauvola_pixels(*gray),
            gray.width as int,
            gray.height as int,
        ),
        forall|k: int| 0 <= k < out.data@.len() ==> out.data@[k] == 0 || out.data@[k] == 255,
{
    let thresholded = sauvola_threshold(gray);
    morph_open(&thresholded)
}

/// Reduces an RGB image to one channel: the colour channel that the mode
/// names, or the luminance.
pub fn reduce_channels(scaled: &RgbImage, mode: Preprocess) -> (gray: GrayImage)
    requires
        scaled.wf(),
    ensures
        gray.wf(),
        gray.width == scaled.width,
        gray.height == scaled.height,
        mode == Preprocess::ChannelR ==> gray.data@ == channel_of(scaled.data@, 0),
        mode == Preprocess::ChannelG ==> gray.data@ == channel_of(scaled.data@, 1),
        mode == Preprocess::ChannelB ==> gray.data@ == channel_of(scaled.data@, 2),
{
    match mode {
        Preprocess::ChannelR => extract_channel(scaled, 0),
        Preprocess::ChannelG => extract_channel(scaled, 1),
        Preprocess::ChannelB => extract_channel(scaled, 2),
        _ => to_luma8(scaled),
    }
}

/// Brings a grayscale image to dark text on a light background with
/// locally equalised contrast: inversion where the image is dark, the gamma
/// curve where it is still dark, then the tiled contrast equalisation.
pub fn enhance(gray: GrayImage) -> (out: GrayImage)
    requires
        gray.fits(),
    ensures
        out.fits(),
        out.width == gray.width,
        out.height == gray.height,
        exists|lifted: GrayImage|
            {
                &&& #[trigger] lifted.fits()
                &&& lifted.width == gray.width
                &&& lifted.height == gray.height
                &&& out.data@ == clahe_pixels(
                    lifted,
                    CLAHE_TILE_SIZE as int,
                    CLAHE_CLIP_LIMIT as int,
                )
            },
{
    let upright = auto_invert(gray);
    let lifted = gamma_correct(upright);
    let out = clahe(&lifted, CLAHE_TILE_SIZE, CLAHE_CLIP_LIMIT);
    assert(lifted.fits());
    out
}

/// `inner` is what `binarize` makes of the image `blurred` of the same size.
pub open spec fn is_binarized_from(inner: GrayImage, blurred: GrayImage) -> bool {
    &&& blurred.fits()
    &&& blurred.width == inner.width
    &&& blurred.height == inner.height
    &&& inner.data@ == opened_pixels(
        sauvola_pixels(blurred),
        blurred.width as int,
        blurred.height as int,
    )
}

/// `out` is `inner` with a white border of `BORDER_PAD` pixels, and `inner`
/// is the crop at `UPSCALE_FACTOR` times its size; in the modes that
/// binarise, `inner` is what `binarize` makes of some image, and so is
/// black and white.
pub open spec fn is_prepared_from(out: GrayImage, inner: GrayImage, crop: RgbImage, mode: Preprocess) -> bool {
    &&& inner.wf()
    &&& inner.width == UPSCALE_FACTOR * crop.width
    &&& inner.height == UPSCALE_FACTOR * crop.height
    &&& out.data@ == padded_pixels(inner, BORDER_PAD as int)
    &&& mode.binarizes() ==> exists|blurred: GrayImage| #[trigger] is_binarized_from(inner, blurred)
    &&& mode.binarizes() ==> forall|k: int|
        0 <= k < inner.data@.len() ==> inner.data@[k] == 0 || inner.data@[k] == 255
}

/// The full preprocessing pipeline: upscaling by `UPSCALE_FACTOR`,
/// reduction to one channel, `enhance`, a light blur, `binarize` in the
/// modes that ask for it, and a white border of `BORDER_PAD` pixels.
///
/// The upscaling and the blur are the work of outside code of which only
/// the size of the result is known; the contract states what holds of every
/// result.
pub fn preprocess_pipeline(img: &RgbImage, mode: Preprocess) -> (out: GrayImage)
    requires
        img.wf(),
        0 < img.width <= MAX_CROP_SIDE,
        0 < img.height <= MAX_CROP_SIDE,
    ensures
        out.fits(),
        out.width == UPSCALE_FACTOR * img.width + 2 * BORDER_PAD,
        out.height == UPSCALE_FACTOR * img.height + 2 * BORDER_PAD,
        exists|inner: GrayImage| #[trigger] is_prepared_from(out, inner, *img, mode),
{
    let nwidth: u32 = img.width * UPSCALE_FACTOR;
    let nheight: u32 = img.height * UPSCALE_FACTOR;
    assert(is_scaled_by(img.width, img.height, UPSCALE_FACTOR as int, nwidth, nheight));
    let scaled = resize_lanczos3(img, nwidth, nheight);
    let gray = reduce_channels(&scaled, mode);
    let enhanced = enhance(gray);
    let blurred = gaussian_blur(&enhanced);
    let binarizes = match mode {
        Preprocess::Binary | Preprocess::ChannelR | Preprocess::ChannelG | Preprocess::ChannelB => true,
        _ => false,
    };
    let inner = if binarizes {
        let inner = binarize(&blurred);
        assert(is_binarized_from(inner, blurred));
        inner
    } else {
        blurred
    };
    let out = pad_white(&inner, BORDER_PAD);
    assert(is_prepared_from(out, inner, *img, mode));
    out
}

/// What is handed to the recogniser: a single-channel image or an RGB image.
#[derive(Debug)]
pub enum Prepared {
    Gray(GrayImage),
    Rgb(RgbImage),
}

impl Prepared {
    /// The buffer holds exactly the pixels of the image.
    pub open spec fn wf(&self) -> bool {
        match self {
            Prepared::Gray(g) => g.wf(),
            Prepared::Rgb(c) => c.wf(),
        }
    }

    /// The bytes of the pixels.
    pub open spec fn data(&self) -> Seq<u8> {
        match self {
            Prepared::Gray(g) => g.data@,
            Prepared::Rgb(c) => c.data@,
        }
    }

    /// The width in pixels.
    pub open spec fn spec_width(&self) -> u32 {
        match self {
            Prepared::Gray(g) => g.width,
            Prepared::Rgb(c) => c.width,
        }
    }

    /// The height in pixels.
    pub open spec fn spec_height(&self) -> u32 {
        match self {
            Prepared::Gray(g) => g.height,
            Prepared::Rgb(c) => c.height,
        }
    }

    /// The layout of the bytes.
    pub open spec fn spec_layout(&self) -> PixelLayout {
        match self {
            Prepared::Gray(_) => PixelLayout::Gray,
            Prepared::Rgb(_) => PixelLayout::Rgb,
        }
    }

    /// The bytes of the pixels, row by row.
    pub fn bytes(&self) -> (b: &[u8])
        ensures
            b@ == self.data(),
    {
        match self {
            Prepared::Gray(g) => g.data.as_slice(),
            Prepared::Rgb(c) => c.data.as_slice(),
        }
    }

    #[verifier::when_used_as_spec(spec_width)]
    pub fn width(&self) -> (w: u32)
        ensures
            w == self.spec_width(),
    {
        match self {
            Prepared::Gray(g) => g.width,
            Prepared::Rgb(c) => c.width,
        }
    }

    #[verifier::when_used_as_spec(spec_height)]
    pub fn height(&self) -> (h: u32)
        ensures
            h == self.spec_height(),
    {
        match self {
            Prepared::Gray(g) => g.height,
            Prepared::Rgb(c) => c.height,
        }
    }

    #[verifier::when_used_as_spec(spec_layout)]
    pub fn layout(&self) -> (l: PixelLayout)
        ensures
            l == self.spec_layout(),
    {
        match self {
            Prepared::Gray(_) => PixelLayout::Gray,
            Prepared::Rgb(_) => PixelLayout::Rgb,
        }
    }

    /// The number of bytes per pixel: 1 for grayscale, 3 for RGB.
    pub fn bytes_per_pixel(&self) -> (bpp: i32)
        ensures
            bpp == self.spec_layout().channels(),
    {
        match self {
            Prepared::Gray(_) => 1,
            Prepared::Rgb(_) => 3,
        }
    }
}

/// One configuration of the classical recogniser.
#[derive(Debug, Clone)]
pub struct TesseractRecognizer {
    pub languages: Vec<String>,
    pub preprocess: Preprocess,
    /// Directory that directly contains the trained data files; `None`
    /// leaves the choice to the recogniser.
    pub tessdata_dir: Option<String>,
}

/// The name of the engine in mode `mode`.
pub open spec fn engine_name(mode: Preprocess) -> Seq<char> {
    match mode {
        Preprocess::Binary => "tesseract/binary"@,
        Preprocess::Gray => "tesseract/gray"@,
        Preprocess::RawGray => "tesseract/raw-gray"@,
        Preprocess::RawRgb => "tesseract/rgb"@,
        Preprocess::ChannelR => "tesseract/channel-r"@,
        Preprocess::ChannelG => "tesseract/channel-g"@,
        Preprocess::ChannelB => "tesseract/channel-b"@,
    }
}

impl TesseractRecognizer {
    /// The name under which results of this configuration are reported.
    pub fn name(&self) -> (n: &'static str)
        ensures
            n@ == engine_name(self.preprocess),
    {
        match self.preprocess {
            Preprocess::Binary => "tesseract/binary",
            Preprocess::Gray => "tesseract/gray",
            Preprocess::RawGray => "tesseract/raw-gray",
            Preprocess::RawRgb => "tesseract/rgb",
            Preprocess::ChannelR => "tesseract/channel-r",
            Preprocess::ChannelG => "tesseract/channel-g",
            Preprocess::ChannelB => "tesseract/channel-b",
        }
    }

    /// The single-channel image that this configuration hands to the
    /// recogniser: the luminance in mode `RawGray`, else the result of the
    /// full pipeline.
    pub fn prepare_gray(&self, crop: &RgbImage) -> (gray: GrayImage)
        requires
            crop.wf(),
            self.preprocess != Preprocess::RawRgb,
            self.preprocess != Preprocess::RawGray ==> 0 < crop.width <= MAX_CROP_SIDE && 0
                < crop.height <= MAX_CROP_SIDE,
        ensures
            gray.wf(),
            self.preprocess == Preprocess::RawGray ==> gray.width == crop.width && gray.height
                == crop.height,
            self.preprocess != Preprocess::RawGray ==> gray.width == UPSCALE_FACTOR * crop.width
                + 2 * BORDER_PAD && gray.height == UPSCALE_FACTOR * crop.height + 2 * BORDER_PAD
                && exists|inner: GrayImage| #[trigger]
                is_prepared_from(gray, inner, *crop, self.preprocess),
    {
        match self.preprocess {
            Preprocess::RawGray => to_luma8(crop),
            _ => preprocess_pipeline(crop, self.preprocess),
        }
    }

    /// Whether this configuration can prepare a crop of this size: the
    /// full pipeline takes crops with at least one pixel and with no side
    /// above `MAX_CROP_SIDE`.
    pub open spec fn takes(&self, crop: RgbImage) -> bool {
        self.preprocess.runs_pipeline() ==> 0 < crop.width <= MAX_CROP_SIDE && 0 < crop.height
            <= MAX_CROP_SIDE
    }

    /// The image that this configuration hands to the recogniser for
    /// `crop`: the crop itself in mode `RawRgb`, else a single-channel
    /// image. `None` where the configuration does not take the crop.
    pub fn prepare(&self, crop: &RgbImage) -> (prepared: Option<Prepared>)
        requires
            crop.wf(),
        ensures
            prepared is Some <==> self.takes(*crop),
            match prepared {
                Some(Prepared::Rgb(c)) => self.preprocess == Preprocess::RawRgb && c.width
                    == crop.width && c.height == crop.height && c.data@ == crop.data@,
                Some(Prepared::Gray(g)) => self.preprocess != Preprocess::RawRgb && g.wf() && (
                self.preprocess == Preprocess::RawGray ==> g.width == crop.width && g.height
                    == crop.height) && (self.preprocess != Preprocess::RawGray ==> g.width
                    == UPSCALE_FACTOR * crop.width + 2 * BORDER_PAD && g.height == UPSCALE_FACTOR
                    * crop.height + 2 * BORDER_PAD && exists|inner: GrayImage| #[trigger]
                    is_prepared_from(g, inner, *crop, self.preprocess)),
                None => true,
            },
    {
        match self.preprocess {
            Preprocess::RawRgb => Some(
                Prepared::Rgb(
                    RgbImage { width: crop.width, height: crop.height, data: crop.data.clone() },
                ),
            ),
            Preprocess::RawGray => Some(Prepared::Gray(self.prepare_gray(crop))),
            _ => {
                if 0 < crop.width && crop.width <= MAX_CROP_SIDE && 0 < crop.height && crop.height
                    <= MAX_CROP_SIDE {
                    Some(Prepared::Gray(self.prepare_gray(crop)))
                } else {
                    None
                }
            },
        }
    }
}

/// The page segmentation modes under which the recogniser is asked, in
/// the order in which their hypotheses are collected: a single line, a
/// single block, a single word, a raw line.
pub fn page_segmentation_modes() -> (modes: Vec<u32>)
    ensures
        modes@ == seq![7u32, 6u32, 8u32, 13u32],
{
    let mut modes: Vec<u32> = Vec::new();
    modes.push(7);
    modes.push(6);
    modes.push(8);
    modes.push(13);
    assert(modes@ =~= seq![7u32, 6u32, 8u32, 13u32]);
    modes
}

/// The language code that the recogniser knows for a code given by the
/// user: two-letter codes of four languages are replaced by their
/// three-letter codes, any other code is passed on trimmed.
pub open spec fn lang_code(raw: Seq<char>) -> Seq<char> {
    let t = trimmed(raw);
    if t == "en"@ || t == "eng"@ {
        "eng"@
    } else if t == "de"@ || t == "deu"@ {
        "deu"@
    } else if t == "fr"@ || t == "fra"@ {
        "fra"@
    } else if t == "es"@ || t == "spa"@ {
        "spa"@
    } else {
        t
    }
}

/// The codes of the first `n` languages, joined by plus signs.
pub open spec fn joined_codes(languages: Seq<String>, n: int) -> Seq<char>
    decreases n,
{
    if n <= 0 {
        Seq::empty()
    } else if n == 1 {
        lang_code(languages[0]@)
    } else {
        joined_codes(languages, n - 1) + "+"@ + lang_code(languages[n - 1]@)
    }
}

/// The language argument of the recogniser: English where no language is
/// given, else the codes of all languages joined by plus signs.
pub open spec fn lang_spec(languages: Seq<String>) -> Seq<char> {
    if languages.len() == 0 {
        "eng"@
    } else {
        joined_codes(languages, languages.len() as int)
    }
}

/// Whether `s` reads `lit`.
fn reads(s: &String, lit: &str) -> (b: bool)
    ensures
        b == (s@ == lit@),
{
    let other = lit.to_owned();
    *s == other
}

/// The code of one language.
fn code_of(raw: &String) -> (code: String)
    ensures
        code@ == lang_code(raw@),
{
    let t = trim(raw.as_str());
    if reads(&t, "en") || reads(&t, "eng") {
        "eng".to_owned()
    } else if reads(&t, "de") || reads(&t, "deu") {
        "deu".to_owned()
    } else if reads(&t, "fr") || reads(&t, "fra") {
        "fra".to_owned()
    } else if reads(&t, "es") || reads(&t, "spa") {
        "spa".to_owned()
    } else {
        t
    }
}

/// Builds the language argument of the recogniser from the languages that
/// the user chose.
pub fn build_lang(languages: &[String]) -> (lang: String)
    ensures
        lang@ == lang_spec(languages@),
{
    if languages.len() == 0 {
        return "eng".to_owned();
    }
    let mut lang = code_of(&languages[0]);
    let mut i: usize = 1;
    while i < languages.len()
        invariant
            1 <= i <= languages.len(),
            lang@ == joined_codes(languages@, i as int),
        decreases languages.len() - i,
    {
        lang.append("+");
        let code = code_of(&languages[i]);
        lang.append(code.as_str());
        i += 1;
    }
    lang
}

/// The confidence in millionths for the mean confidence that the
/// recogniser reports on its scale from 0 to 100: a hundredth of it, floored
/// at zero and held to the largest `u32`.
pub open spec fn confidence_of(mean_conf: int) -> int {
    if mean_conf <= 0 {
        0
    } else if mean_conf * 10_000 > u32::MAX {
        u32::MAX as int
    } else {
        mean_conf * 10_000
    }
}

/// Brings the recogniser's mean confidence to millionths.
pub fn normalize_confidence(mean_conf: i32) -> (confidence: u32)
    ensures
        confidence == confidence_of(mean_conf as int),
{
    if mean_conf <= 0 {
        0
    } else {
        let scaled: u64 = mean_conf as u64 * 10_000;
        if scaled > u32::MAX as u64 {
            u32::MAX
        } else {
            scaled as u32
        }
    }
}

/// What one run of the recogniser contributes: its trimmed text with its
/// confidence in millionths, or nothing where the text is empty after
/// trimming.
pub fn read_hypothesis(raw: &str, mean_conf: i32) -> (hypothesis: Option<(String, u32)>)
    ensures
        hypothesis is Some <==> trimmed(raw@).len() > 0,
        hypothesis matches Some(h) ==> h.0@ == trimmed(raw@) && h.1 == confidence_of(
            mean_conf as int,
        ),
{
    let text = trim(raw);
    if text.as_str().unicode_len() == 0 {
        None
    } else {
        Some((text, normalize_confidence(mean_conf)))
    }
}

/// Hypothesis `i` is kept: none has a higher confidence, and every one
/// after it has a lower confidence.
pub open spec fn is_kept_hypothesis(hypotheses: Seq<(String, u32)>, i: int) -> bool {
    &&& 0 <= i < hypotheses.len()
    &&& forall|j: int| 0 <= j < hypotheses.len() ==> (#[trigger] hypotheses[j]).1 <= hypotheses[i].1
    &&& forall|j: int| i < j < hypotheses.len() ==> (#[trigger] hypotheses[j]).1 < hypotheses[i].1
}

/// The index of the hypothesis of the highest confidence, the last of them
/// where several share it. `None` where there is no hypothesis.
pub fn best_hypothesis(hypotheses: &[(String, u32)]) -> (best: Option<usize>)
    ensures
        match best {
            Some(i) => is_kept_hypothesis(hypotheses@, i as int),
            None => hypotheses@.len() == 0,
        },
{
    if hypotheses.len() == 0 {
        return None;
    }
    let mut best: usize = 0;
    let mut i: usize = 1;
    while i < hypotheses.len()
        invariant
            1 <= i <= hypotheses.len(),
            best < i,
            forall|j: int| 0 <= j < i ==> (#[trigger] hypotheses@[j]).1 <= hypotheses@[best as int].1,
            forall|j: int| best < j < i ==> (#[trigger] hypotheses@[j]).1 < hypotheses@[best as int].1,
        decreases hypotheses.len() - i,
    {
        if hypotheses[i].1 >= hypotheses[best].1 {
            best = i;
        }
        i += 1;
    }
    Some(best)
}

/// Makes the result of one configuration from the hypotheses that the
/// recogniser returned for the prepared image: the text and the confidence
/// of the kept hypothesis, a preview of the prepared image, and the name of
/// the engine. `None` where there is no hypothesis.
pub fn run_ocr_bytes(prepared: &Prepared, hypotheses: &[(String, u32)], engine_name: &str) -> (result:
    Option<OcrResult>)
    requires
        prepared.wf(),
    ensures
        result is Some <==> hypotheses@.len() > 0,
        result matches Some(r) ==> exists|i: int|
            {
                &&& #[trigger] is_kept_hypothesis(hypotheses@, i)
                &&& r.text@ == hypotheses@[i].0@
                &&& r.confidence == hypotheses@[i].1
                &&& r.engine_name@ == engine_name@
                &&& r.preview_b64@ == preview_text(
                    prepared.data(),
                    prepared.width() as int,
                    prepared.height() as int,
                    prepared.layout().channels(),
                )
            },
{
    match best_hypothesis(hypotheses) {
        None => None,
        Some(i) => {
            proof {
                match prepared {
                    Prepared::Gray(g) => {
                        assert(1 * g.width * g.height == (g.width as int) * (g.height as int))
                            by (nonlinear_arith);
                    },
                    Prepared::Rgb(c) => {},
                }
            }
            let preview_b64 = encode_png(
                prepared.bytes(),
                prepared.width(),
                prepared.height(),
                prepared.layout(),
            );
            let r = OcrResult {
                text: hypotheses[i].0.clone(),
                confidence: hypotheses[i].1,
                preview_b64,
                engine_name: engine_name.to_owned(),
            };
            assert(is_kept_hypothesis(hypotheses@, i as int));
            Some(r)
        },
    }
}

} // verus!
