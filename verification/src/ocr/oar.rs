//! The neural recogniser: how a crop is prepared for it in each colour
//! mode, and how its prediction becomes a result.

use crate::ocr::OcrResult;
use crate::raster::{
    encode_png, gray_to_rgb8, is_scaled_by, preview_text, resize_lanczos3, to_luma8, RgbImage,
};
use crate::text::{trim, trimmed};
use vstd::arithmetic::div_mod::{lemma_fundamental_div_mod, lemma_mod_bound};
use vstd::prelude::*;

verus! {

/// Minimum height, in pixels, of an image fed to the recognition model.
pub const MIN_HEIGHT: u32 = 48;

/// Which colour space to present to the recognition model.
#[derive(Debug, Clone, Copy, PartialEq, Eq)]
pub enum ColorMode {
    /// Pass the crop as it is.
    Rgb,
    /// Convert to grayscale and promote back to three equal channels.
    Grayscale,
}

/// One configuration of the neural recogniser.
#[derive(Debug, Clone, Copy)]
pub struct OarRecognizer {
    pub color_mode: ColorMode,
}

/// The factor by which an image of height `height` is enlarged: the least
/// whole factor that brings the height to `MIN_HEIGHT`.
pub open spec fn scale_of(height: int) -> int {
    if height < MIN_HEIGHT {
        (MIN_HEIGHT + height - 1) / height
    } else {
        1
    }
}

/// The factor by which the crop is enlarged before it is fed to the model.
pub fn upscale_factor(height: u32) -> (scale: u32)
    requires
        height > 0,
    ensures
        scale == scale_of(height as int),
        1 <= scale <= MIN_HEIGHT,
        scale * height >= MIN_HEIGHT,
        (scale - 1) * height < MIN_HEIGHT,
{
    if height < MIN_HEIGHT {
        let scale = (MIN_HEIGHT + height - 1) / height;
        proof {
            let n = (MIN_HEIGHT + height - 1) as int;
            let h = height as int;
            lemma_fundamental_div_mod(n, h);
            lemma_mod_bound(n, h);
            assert(h * (n / h) == (n / h) * h) by (nonlinear_arith);
            assert((n / h - 1) * h == (n / h) * h - h) by (nonlinear_arith);
            assert(n / h <= 48 && n / h >= 1) by (nonlinear_arith)
                requires
                    n == h * (n / h) + n % h,
                    0 <= n % h < h,
                    n == 47 + h,
                    1 <= h < 48,
            ;
        }
        scale
    } else {
        assert((1 - 1) * height == 0);
        1
    }
}

/// The name of the engine in colour mode `mode`.
pub open spec fn engine_name(mode: ColorMode) -> Seq<char> {
    match mode {
        ColorMode::Rgb => "oar-ocr/rgb"@,
        ColorMode::Grayscale => "oar-ocr/gray"@,
    }
}

impl OarRecognizer {
    /// The name under which results of this configuration are reported.
    pub fn name(&self) -> (n: &'static str)
        ensures
            n@ == engine_name(self.color_mode),
    {
        match self.color_mode {
            ColorMode::Rgb => "oar-ocr/rgb",
            ColorMode::Grayscale => "oar-ocr/gray",
        }
    }

    /// Whether the crop can be prepared: it has a pixel, and its enlarged
    /// width is a `u32`.
    pub open spec fn takes(crop: RgbImage) -> bool {
        crop.width > 0 && crop.height > 0 && scale_of(crop.height as int) * crop.width <= u32::MAX
    }

    /// The image that is fed to the model for `crop`: the crop in the
    /// colour space of this configuration, enlarged by a whole factor so
    /// that its height is at least `MIN_HEIGHT`. In mode `Rgb` a crop that is
    /// high enough is passed on as it is. `None` where the crop cannot be
    /// prepared.
    pub fn prepare(&self, crop: &RgbImage) -> (fed: Option<RgbImage>)
        requires
            crop.wf(),
        ensures
            fed is Some <==> Self::takes(*crop),
            fed matches Some(img) ==> {
                &&& img.wf()
                &&& img.width == scale_of(crop.height as int) * crop.width
                &&& img.height == scale_of(crop.height as int) * crop.height
                &&& img.height >= MIN_HEIGHT
                &&& (self.color_mode == ColorMode::Rgb && crop.height >= MIN_HEIGHT ==> img.data@
                    == crop.data@)
            },
    {
        if crop.width == 0 || crop.height == 0 {
            return None;
        }
        let scale = upscale_factor(crop.height);
        assert(scale * crop.width <= 48 * 0xffff_ffff) by (nonlinear_arith)
            requires
                scale <= 48,
                crop.width <= 0xffff_ffff,
        ;
        if scale as u64 * crop.width as u64 > u32::MAX as u64 {
            return None;
        }
        let img = match self.color_mode {
            ColorMode::Rgb => RgbImage {
                width: crop.width,
                height: crop.height,
                data: crop.data.clone(),
            },
            ColorMode::Grayscale => gray_to_rgb8(&to_luma8(crop)),
        };
        if crop.height < MIN_HEIGHT {
            assert(crop.height * scale <= 48 * 48 && crop.height * scale == scale * crop.height
                && crop.width * scale == scale * crop.width) by (nonlinear_arith)
                requires
                    crop.height < 48,
                    scale <= 48,
            ;
            let nwidth: u32 = crop.width * scale;
            let nheight: u32 = crop.height * scale;
            assert(is_scaled_by(img.width, img.height, scale as int, nwidth, nheight));
            Some(resize_lanczos3(&img, nwidth, nheight))
        } else {
            assert(1 * crop.width == crop.width && 1 * crop.height == crop.height);
            Some(img)
        }
    }

    /// The preview of what is fed to the model.
    pub fn preview(fed: &RgbImage) -> (text: String)
        requires
            fed.wf(),
        ensures
            text@ == preview_text(fed.data@, fed.width as int, fed.height as int, 3),
    {
        encode_png(fed.data.as_slice(), fed.width, fed.height, crate::raster::PixelLayout::Rgb)
    }

    /// Makes the result of this configuration from what the model
    /// predicted: the first text with the first score, in millionths, or
    /// zero where there is no score. `None` where there is no text or the
    /// text is empty after trimming.
    pub fn finish(&self, text: Option<String>, score: Option<u32>, preview: String) -> (result:
        Option<OcrResult>)
        ensures
            result is Some <==> (text matches Some(t) && trimmed(t@).len() > 0),
            result matches Some(r) ==> {
                &&& r.text@ == text->0@
                &&& r.confidence == (match score {
                    Some(s) => s,
                    None => 0,
                })
                &&& r.preview_b64@ == preview@
                &&& r.engine_name@ == engine_name(self.color_mode)
            },
    {
        let text = match text {
            Some(t) => t,
            None => {
                return None;
            },
        };
        if trim(text.as_str()).as_str().unicode_len() == 0 {
            return None;
        }
        let confidence = match score {
            Some(s) => s,
            None => 0,
        };
        Some(
            OcrResult {
                text,
                confidence,
                preview_b64: preview,
                engine_name: self.name().to_owned(),
            },
        )
    }
}

} // verus!
