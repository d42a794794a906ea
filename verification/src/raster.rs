//! Images as plain values: eight-bit pixels in row-major order.

use vstd::prelude::*;

verus! {

/// The longest side of an image that the transforms of this crate take:
/// with it the pixels of an image number less than 2^31.
pub const MAX_SIDE: u32 = 46_340;

/// A colour image: three bytes per pixel (red, green, blue), rows from top
/// to bottom.
#[derive(Debug, Clone)]
pub struct RgbImage {
    pub width: u32,
    pub height: u32,
    pub data: Vec<u8>,
}

/// A single-channel image: one byte per pixel, rows from top to bottom.
#[derive(Debug, Clone)]
pub struct GrayImage {
    pub width: u32,
    pub height: u32,
    pub data: Vec<u8>,
}

impl RgbImage {
    /// The buffer holds exactly the pixels of the image.
    pub open spec fn wf(&self) -> bool {
        self.data@.len() == 3 * (self.width as int) * (self.height as int)
    }

    /// Channel `c` of the pixel in column `x` of row `y`.
    pub open spec fn channel(&self, x: int, y: int, c: int) -> u8 {
        self.data@[(y * (self.width as int) + x) * 3 + c]
    }
}

impl GrayImage {
    /// The buffer holds exactly the pixels of the image.
    pub open spec fn wf(&self) -> bool {
        self.data@.len() == (self.width as int) * (self.height as int)
    }

    /// The pixel in column `x` of row `y`.
    pub open spec fn pixel(&self, x: int, y: int) -> u8 {
        self.data@[y * (self.width as int) + x]
    }

    /// The buffer holds the pixels of the image, and no side is longer
    /// than `MAX_SIDE`.
    pub open spec fn fits(&self) -> bool {
        self.wf() && self.width <= MAX_SIDE && self.height <= MAX_SIDE
    }

    /// Reads the pixel in column `x` of row `y`.
    pub fn get(&self, x: u32, y: u32) -> (p: u8)
        requires
            self.wf(),
            x < self.width,
            y < self.height,
        ensures
            p == self.pixel(x as int, y as int),
    {
        let len = self.data.len();
        proof {
            lemma_pixel_index(x as int, y as int, self.width as int, self.height as int);
            assert(y * self.width + x < len);
        }
        self.data[y as usize * self.width as usize + x as usize]
    }
}

/// The index of the pixel in column `x` of row `y` lies within an image of
/// `w` by `h` pixels.
pub proof fn lemma_pixel_index(x: int, y: int, w: int, h: int)
    requires
        0 <= x < w,
        0 <= y < h,
    ensures
        0 <= y * w + x < w * h,
        y * w + w <= w * h,
{
    assert(y * w + w <= w * h) by (nonlinear_arith)
        requires
            0 <= y < h,
            0 < w,
    ;
    assert(0 <= y * w) by (nonlinear_arith)
        requires
            0 <= y,
            0 < w,
    ;
}

/// A run of `w` pixels that starts in column `x` of row `y` lies within a
/// frame of `fw` by `fh` pixels of three bytes each.
proof fn lemma_row_in_frame(x: int, y: int, w: int, fw: int, fh: int)
    requires
        0 <= x,
        0 <= w,
        x + w <= fw,
        0 <= y < fh,
    ensures
        0 <= y * fw,
        0 <= y * fw + x,
        y * fw + x + w <= fw * fh,
        (y * fw + x) * 3 + 3 * w <= 3 * fw * fh,
        3 * w <= 3 * fw * fh,
        fw * fh <= 3 * fw * fh,
{
    assert(0 <= y * fw && y * fw + fw <= fw * fh) by (nonlinear_arith)
        requires
            0 <= y < fh,
            0 <= fw,
    ;
    assert(3 * (fw * fh) == 3 * fw * fh) by (nonlinear_arith);
}

/// Cuts the rectangle of `w` by `h` pixels whose top left corner is
/// `(x, y)` out of a frame of interleaved RGB bytes.
pub fn build_crop(frame_bytes: &[u8], fw: u32, fh: u32, x: u32, y: u32, w: u32, h: u32) -> (crop:
    RgbImage)
    requires
        x + w <= fw,
        y + h <= fh,
        frame_bytes@.len() >= 3 * (fw as int) * (fh as int),
    ensures
        crop.wf(),
        crop.width == w,
        crop.height == h,
        forall|i: int, j: int, c: int|
            0 <= i < w && 0 <= j < h && 0 <= c < 3 ==> #[trigger] crop.channel(i, j, c)
                == frame_bytes@[((y + j) * (fw as int) + x + i) * 3 + c],
{
    let mut data: Vec<u8> = Vec::new();
    if w == 0 || h == 0 {
        assert(3 * (w as int) * (h as int) == 0) by (nonlinear_arith)
            requires
                w == 0 || h == 0,
        ;
        return RgbImage { width: w, height: h, data };
    }
    let total = frame_bytes.len();
    proof {
        lemma_row_in_frame(x as int, y as int, w as int, fw as int, fh as int);
    }
    let row_len: usize = 3 * (w as usize);
    let mut j: u32 = 0;
    while j < h
        invariant
            0 < w,
            x + w <= fw,
            y + h <= fh,
            frame_bytes@.len() >= 3 * (fw as int) * (fh as int),
            total == frame_bytes@.len(),
            row_len == 3 * w,
            j <= h,
            data@.len() == j * row_len,
            forall|jj: int, k: int|
                0 <= jj < j && 0 <= k < row_len ==> #[trigger] data@[jj * row_len + k]
                    == frame_bytes@[((y + jj) * (fw as int) + x) * 3 + k],
        decreases h - j,
    {
        proof {
            lemma_row_in_frame(x as int, (y + j) as int, w as int, fw as int, fh as int);
        }
        let start: usize = ((y as usize + j as usize) * (fw as usize) + x as usize) * 3;
        let ghost before = data@;
        let mut k: usize = 0;
        while k < row_len
            invariant
                k <= row_len,
                row_len == 3 * w,
                start == ((y + j) * (fw as int) + x) * 3,
                start + row_len <= frame_bytes@.len(),
                total == frame_bytes@.len(),
                data@.len() == before.len() + k,
                before.len() == j * row_len,
                forall|q: int| 0 <= q < before.len() ==> data@[q] == before[q],
                forall|kk: int|
                    0 <= kk < k ==> #[trigger] data@[j * row_len + kk] == frame_bytes@[start + kk],
            decreases row_len - k,
        {
            data.push(frame_bytes[start + k]);
            k += 1;
        }
        proof {
            assert forall|jj: int, kk: int| 0 <= jj < j + 1 && 0 <= kk < row_len implies
                #[trigger] data@[jj * row_len + kk] == frame_bytes@[((y + jj) * (fw as int) + x)
                * 3 + kk] by {
                lemma_row_in_frame(x as int, y + jj, w as int, fw as int, fh as int);
                assert(0 <= jj * row_len + kk < (j + 1) * row_len) by (nonlinear_arith)
                    requires
                        0 <= jj < j + 1,
                        0 <= kk < row_len,
                ;
                if jj < j {
                    assert(jj * row_len + kk < j * row_len) by (nonlinear_arith)
                        requires
                            0 <= jj < j,
                            0 <= kk < row_len,
                    ;
                    assert(before[jj * row_len + kk] == frame_bytes@[((y + jj) * (fw as int) + x)
                        * 3 + kk]);
                }
            }
            assert((j + 1) * row_len == j * row_len + row_len) by (nonlinear_arith);
        }
        j += 1;
    }
    let crop = RgbImage { width: w, height: h, data };
    proof {
        assert(3 * (w as int) * (h as int) == h * row_len) by (nonlinear_arith)
            requires
                row_len == 3 * w,
        ;
        assert forall|i: int, jj: int, c: int| 0 <= i < w && 0 <= jj < h && 0 <= c
            < 3 implies #[trigger] crop.channel(i, jj, c) == frame_bytes@[((y + jj) * (fw as int)
            + x + i) * 3 + c] by {
            let kk = 3 * i + c;
            lemma_row_in_frame(x as int, y + jj, w as int, fw as int, fh as int);
            assert(0 <= jj * row_len + kk < h * row_len) by (nonlinear_arith)
                requires
                    0 <= jj < h,
                    0 <= kk < row_len,
            ;
            assert((jj * (w as int) + i) * 3 + c == jj * row_len + kk) by (nonlinear_arith)
                requires
                    row_len == 3 * w,
                    kk == 3 * i + c,
            ;
            assert(((y + jj) * (fw as int) + x + i) * 3 + c == ((y + jj) * (fw as int) + x) * 3
                + kk);
            assert(crop.data@[jj * row_len + kk] == frame_bytes@[((y + jj) * (fw as int) + x) * 3
                + kk]);
        }
    }
    crop
}

/// How the bytes of a buffer are laid out in pixels.
#[derive(Debug, Clone, Copy, PartialEq, Eq)]
pub enum PixelLayout {
    /// One byte per pixel.
    Gray,
    /// Three bytes per pixel: red, green, blue.
    Rgb,
}

impl PixelLayout {
    /// The number of bytes that one pixel takes.
    pub open spec fn channels(&self) -> int {
        match self {
            PixelLayout::Gray => 1,
            PixelLayout::Rgb => 3,
        }
    }
}

/// The PNG file that the encoder writes for a buffer of `width` by `height`
/// pixels of `channels` bytes each, or `None` where it refuses the image.
pub uninterp spec fn png_of(data: Seq<u8>, width: int, height: int, channels: int) -> Option<Seq<u8>>;

/// The standard base64 text, with padding, of a sequence of bytes.
pub uninterp spec fn base64_of(bytes: Seq<u8>) -> Seq<char>;

/// `image::DynamicImage::to_luma8` on an RGB image: the image as a
/// single-channel image of the same size. Nothing is claimed of the pixel
/// values.
#[verifier::external_body]
pub(crate) fn to_luma8(img: &RgbImage) -> (out: GrayImage)
    requires
        img.wf(),
    ensures
        out.wf(),
        out.width == img.width,
        out.height == img.height,
{
    let buf = image::RgbImage::from_raw(img.width, img.height, img.data.clone()).unwrap();
    let gray = image::DynamicImage::ImageRgb8(buf).to_luma8();
    GrayImage { width: gray.width(), height: gray.height(), data: gray.into_raw() }
}

/// `image::DynamicImage::to_rgb8` on a single-channel image: the image as
/// an RGB image of the same size. Nothing is claimed of the pixel values.
#[verifier::external_body]
pub(crate) fn gray_to_rgb8(img: &GrayImage) -> (out: RgbImage)
    requires
        img.wf(),
    ensures
        out.wf(),
        out.width == img.width,
        out.height == img.height,
{
    let buf = image::GrayImage::from_raw(img.width, img.height, img.data.clone()).unwrap();
    let rgb = image::DynamicImage::ImageLuma8(buf).to_rgb8();
    RgbImage { width: rgb.width(), height: rgb.height(), data: rgb.into_raw() }
}

/// A size of `nwidth` by `nheight` is `k` times a size of `width` by `height`.
pub open spec fn is_scaled_by(width: u32, height: u32, k: int, nwidth: u32, nheight: u32) -> bool {
    k >= 1 && nwidth == k * width && nheight == k * height
}

/// `image::DynamicImage::resize` with the Lanczos filter of window 3, to a
/// size that is a whole multiple of the size of `img`: the result has
/// exactly the size asked for. Nothing is claimed of the pixel values.
#[verifier::external_body]
pub(crate) fn resize_lanczos3(img: &RgbImage, nwidth: u32, nheight: u32) -> (out: RgbImage)
    requires
        img.wf(),
        img.width > 0,
        img.height > 0,
        exists|k: int| #[trigger] is_scaled_by(img.width, img.height, k, nwidth, nheight),
    ensures
        out.wf(),
        out.width == nwidth,
        out.height == nheight,
{
    let buf = image::RgbImage::from_raw(img.width, img.height, img.data.clone()).unwrap();
    let scaled = image::DynamicImage::ImageRgb8(buf).resize(
        nwidth,
        nheight,
        image::imageops::FilterType::Lanczos3,
    ).to_rgb8();
    RgbImage { width: scaled.width(), height: scaled.height(), data: scaled.into_raw() }
}

/// `image::codecs::png::PngEncoder::write_image` into a buffer in memory:
/// the bytes of the PNG file, or `None` where the encoder reports an error.
#[verifier::external_body]
pub(crate) fn png_bytes(data: &[u8], width: u32, height: u32, layout: PixelLayout) -> (png: Option<
    Vec<u8>,
>)
    requires
        data@.len() == layout.channels() * width * height,
    ensures
        match png {
            Some(bytes) => png_of(data@, width as int, height as int, layout.channels()) == Some(
                bytes@,
            ),
            None => png_of(data@, width as int, height as int, layout.channels()) is None,
        },
{
    let color = match layout {
        PixelLayout::Gray => image::ExtendedColorType::L8,
        PixelLayout::Rgb => image::ExtendedColorType::Rgb8,
    };
    let mut png: Vec<u8> = Vec::new();
    let encoder = image::codecs::png::PngEncoder::new(&mut png);
    match image::ImageEncoder::write_image(encoder, data, width, height, color) {
        Ok(()) => Some(png),
        Err(_) => None,
    }
}

/// `base64::Engine::encode` of the engine `STANDARD`: the base64 text of
/// `bytes`.
#[verifier::external_body]
pub(crate) fn base64_text(bytes: &[u8]) -> (text: String)
    requires
        bytes@.len() <= usize::MAX / 2,
    ensures
        text@ == base64_of(bytes@),
{
    base64::Engine::encode(&base64::engine::general_purpose::STANDARD, bytes)
}

/// What `encode_png` returns: the base64 text of the PNG file of the
/// buffer; empty where the encoder refuses the image or the file is too
/// long for its text to be built.
pub open spec fn preview_text(data: Seq<u8>, width: int, height: int, channels: int) -> Seq<char> {
    match png_of(data, width, height, channels) {
        Some(png) => if png.len() <= usize::MAX / 2 {
            base64_of(png)
        } else {
            Seq::empty()
        },
        None => Seq::empty(),
    }
}

/// Encodes a buffer of pixels as a PNG file in base64 text. The result is
/// empty where the image cannot be encoded.
pub fn encode_png(data: &[u8], width: u32, height: u32, layout: PixelLayout) -> (text: String)
    requires
        data@.len() == layout.channels() * width * height,
    ensures
        text@ == preview_text(data@, width as int, height as int, layout.channels()),
{
    match png_bytes(data, width, height, layout) {
        Some(png) => {
            if png.len() <= usize::MAX / 2 {
                base64_text(png.as_slice())
            } else {
                String::new()
            }
        },
        None => String::new(),
    }
}

} // verus!
