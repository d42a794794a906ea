use base64::Engine;
use ocr_fusion::ocr::clahe::{bilinear_clahe, clahe, tile_mapping};
use ocr_fusion::ocr::oar::{upscale_factor, ColorMode, OarRecognizer, MIN_HEIGHT};
use ocr_fusion::ocr::sauvola::{passes_threshold, sauvola_threshold};
use ocr_fusion::ocr::tesseract::{
    auto_invert, best_hypothesis, binarize, build_lang, enhance, extract_channel, gamma_correct,
    gamma_table, mean_brightness, normalize_confidence, pad_white, page_segmentation_modes,
    preprocess_pipeline, read_hypothesis, reduce_channels, run_ocr_bytes, Prepared, Preprocess,
    TesseractRecognizer, BORDER_PAD, MAX_CROP_SIDE, UPSCALE_FACTOR,
};
use ocr_fusion::raster::{build_crop, encode_png, GrayImage, PixelLayout, RgbImage};

struct Noise(u64);

impl Noise {
    fn next(&mut self) -> u8 {
        self.0 = self.0.wrapping_mul(6364136223846793005).wrapping_add(1442695040888963407);
        (self.0 >> 56) as u8
    }
}

fn noisy_gray(width: u32, height: u32, seed: u64) -> GrayImage {
    let mut n = Noise(seed);
    GrayImage { width, height, data: (0..width * height).map(|_| n.next()).collect() }
}

fn smooth_gray(width: u32, height: u32) -> GrayImage {
    let mut data = Vec::new();
    for y in 0..height {
        for x in 0..width {
            data.push(((x * 3 + y * 5) % 256) as u8);
        }
    }
    GrayImage { width, height, data }
}

fn noisy_rgb(width: u32, height: u32, seed: u64) -> RgbImage {
    let mut n = Noise(seed);
    RgbImage { width, height, data: (0..3 * width * height).map(|_| n.next()).collect() }
}

fn float_tile_mapping(img: &GrayImage, tx: u32, ty: u32, ts: u32, factor: f32) -> Vec<u8> {
    let x0 = tx * ts;
    let y0 = ty * ts;
    let x1 = ((tx + 1) * ts).min(img.width);
    let y1 = ((ty + 1) * ts).min(img.height);
    let area = ((x1 - x0) * (y1 - y0)) as u64;
    let mut hist = vec![0u64; 256];
    for y in y0..y1 {
        for x in x0..x1 {
            hist[img.data[(y * img.width + x) as usize] as usize] += 1;
        }
    }
    let clip = ((area as f32 / 256.0) * factor).max(1.0) as u64;
    let mut excess = 0u64;
    for h in hist.iter_mut() {
        if *h > clip {
            excess += *h - clip;
            *h = clip;
        }
    }
    let share = excess / 256;
    let rest = (excess % 256) as usize;
    let mut cdf = 0u64;
    let mut map = vec![0u8; 256];
    for i in 0..256 {
        cdf += hist[i] + share + if i < rest { 1 } else { 0 };
        map[i] = ((cdf * 255) / area).min(255) as u8;
    }
    map
}

fn float_blend(maps: &[Vec<Vec<u8>>], p: u8, x: u32, y: u32, ts: u32, nx: u32, ny: u32) -> u8 {
    let t = ts as f32;
    let xf = (x as f32 - t / 2.0) / t;
    let yf = (y as f32 - t / 2.0) / t;
    let tx0 = (xf.floor() as i32).clamp(0, nx as i32 - 1) as usize;
    let ty0 = (yf.floor() as i32).clamp(0, ny as i32 - 1) as usize;
    let tx1 = (tx0 + 1).min(nx as usize - 1);
    let ty1 = (ty0 + 1).min(ny as usize - 1);
    let fx = (xf - tx0 as f32).clamp(0.0, 1.0);
    let fy = (yf - ty0 as f32).clamp(0.0, 1.0);
    let v = |ty: usize, tx: usize| maps[ty][tx][p as usize] as f32;
    let top = v(ty0, tx0) + (v(ty0, tx1) - v(ty0, tx0)) * fx;
    let bot = v(ty1, tx0) + (v(ty1, tx1) - v(ty1, tx0)) * fx;
    (top + (bot - top) * fy).round() as u8
}

fn float_clahe(img: &GrayImage, ts: u32, factor: f32) -> Vec<u8> {
    let nx = (img.width + ts - 1) / ts;
    let ny = (img.height + ts - 1) / ts;
    let maps: Vec<Vec<Vec<u8>>> = (0..ny)
        .map(|ty| (0..nx).map(|tx| float_tile_mapping(img, tx, ty, ts, factor)).collect())
        .collect();
    let mut out = Vec::new();
    for y in 0..img.height {
        for x in 0..img.width {
            let p = img.data[(y * img.width + x) as usize];
            out.push(float_blend(&maps, p, x, y, ts, nx, ny));
        }
    }
    out
}

fn float_sauvola(img: &GrayImage) -> Vec<u8> {
    let w = img.width as usize;
    let h = img.height as usize;
    let mut out = Vec::new();
    for y in 0..h {
        for x in 0..w {
            let x0 = x.saturating_sub(12);
            let y0 = y.saturating_sub(12);
            let x1 = (x + 13).min(w);
            let y1 = (y + 13).min(h);
            let mut sum = 0i64;
            let mut sumsq = 0i64;
            for yy in y0..y1 {
                for xx in x0..x1 {
                    let v = img.data[yy * w + xx] as i64;
                    sum += v;
                    sumsq += v * v;
                }
            }
            let count = ((x1 - x0) * (y1 - y0)) as f64;
            let mean = sum as f64 / count;
            let var = sumsq as f64 / count - mean * mean;
            let std = var.max(0.0).sqrt();
            let threshold = mean * (1.0 + 0.34 * (std / 128.0 - 1.0));
            let pv = img.data[y * w + x] as f64;
            out.push(if pv >= threshold { 255 } else { 0 });
        }
    }
    out
}

#[test]
fn crop_takes_the_rectangle_out_of_the_frame() {
    let frame: Vec<u8> = (0..60).collect();
    let crop = build_crop(&frame, 5, 4, 1, 2, 3, 2);
    assert_eq!(crop.width, 3);
    assert_eq!(crop.height, 2);
    assert_eq!(
        crop.data,
        vec![33, 34, 35, 36, 37, 38, 39, 40, 41, 48, 49, 50, 51, 52, 53, 54, 55, 56]
    );
    let whole = build_crop(&frame, 5, 4, 0, 0, 5, 4);
    assert_eq!(whole.data, frame);
    let nothing = build_crop(&frame, 5, 4, 5, 4, 0, 0);
    assert!(nothing.data.is_empty());
    let flat = build_crop(&frame, 5, 4, 0, 0, 5, 0);
    assert_eq!((flat.width, flat.height, flat.data.len()), (5, 0, 0));
}

#[test]
fn gray_pixel_access() {
    let g = smooth_gray(7, 5);
    assert_eq!(g.get(0, 0), 0);
    assert_eq!(g.get(6, 4), 38);
    assert_eq!(g.get(2, 3), 21);
}

#[test]
fn png_preview_decodes_to_the_same_pixels() {
    let gray = noisy_gray(9, 4, 1);
    let text = encode_png(&gray.data, 9, 4, PixelLayout::Gray);
    assert!(!text.is_empty());
    assert_ne!(text.as_bytes(), &gray.data[..]);
    let png = base64::engine::general_purpose::STANDARD.decode(&text).unwrap();
    assert_eq!(&png[..8], &[0x89, b'P', b'N', b'G', 0x0d, 0x0a, 0x1a, 0x0a]);
    let back = image::load_from_memory(&png).unwrap();
    assert_eq!(back.color(), image::ColorType::L8);
    assert_eq!(back.to_luma8().into_raw(), gray.data);

    let rgb = noisy_rgb(3, 5, 2);
    let text = encode_png(&rgb.data, 3, 5, PixelLayout::Rgb);
    let png = base64::engine::general_purpose::STANDARD.decode(&text).unwrap();
    let back = image::load_from_memory(&png).unwrap();
    assert_eq!(back.color(), image::ColorType::Rgb8);
    assert_eq!((back.width(), back.height()), (3, 5));
    assert_eq!(back.to_rgb8().into_raw(), rgb.data);
}

#[test]
fn png_preview_of_an_image_without_pixels_is_empty() {
    assert_eq!(encode_png(&[], 0, 0, PixelLayout::Gray), "");
    assert_eq!(encode_png(&[], 0, 7, PixelLayout::Rgb), "");
}

#[test]
fn tile_mapping_of_a_uniform_tile() {
    let img = GrayImage { width: 32, height: 32, data: vec![100; 1024] };
    let map = tile_mapping(&img, 0, 0, 32, 2);
    assert_eq!(map.len(), 256);
    assert_eq!(map[0], 0);
    assert_eq!(map[99], 99);
    assert_eq!(map[100], 102);
    assert_eq!(map[255], 255);
    for i in 0..256usize {
        let below: u64 = 4 * (i as u64 + 1).min(248) + 3 * (i as u64 + 1).saturating_sub(248);
        let cdf = below + if i >= 100 { 8 } else { 0 };
        assert_eq!(map[i] as u64, (cdf * 255 / 1024).min(255));
    }
}

#[test]
fn tile_mapping_of_a_single_pixel_tile() {
    let img = GrayImage { width: 33, height: 1, data: (0..33).collect() };
    let map = tile_mapping(&img, 1, 0, 32, 2);
    for i in 0..256usize {
        assert_eq!(map[i], if i >= 32 { 255 } else { 0 });
    }
}

#[test]
fn tile_mapping_matches_floating_point_clip_limit() {
    for (w, h, seed) in [(40, 40, 3), (64, 33, 4), (17, 90, 5), (100, 7, 6)] {
        let img = noisy_gray(w, h, seed);
        for ty in 0..(h + 31) / 32 {
            for tx in 0..(w + 31) / 32 {
                assert_eq!(
                    tile_mapping(&img, tx, ty, 32, 2),
                    float_tile_mapping(&img, tx, ty, 32, 2.0)
                );
            }
        }
    }
    let img = smooth_gray(50, 50);
    assert_eq!(tile_mapping(&img, 1, 1, 20, 3), float_tile_mapping(&img, 1, 1, 20, 3.0));
}

#[test]
fn tone_mappings_never_decrease() {
    let img = noisy_gray(45, 38, 7);
    for (tx, ty) in [(0, 0), (1, 0), (0, 1), (1, 1)] {
        let map = tile_mapping(&img, tx, ty, 32, 2);
        assert!(map.windows(2).all(|p| p[0] <= p[1]));
        assert_eq!(map[255], 255);
    }
}

#[test]
fn blend_of_four_tiles() {
    let flat = |v: u8| vec![v; 256];
    let maps = vec![vec![flat(0), flat(100)], vec![flat(200), flat(50)]];
    assert_eq!(bilinear_clahe(&maps, 0, 0, 0, 32, 2, 2), 0);
    assert_eq!(bilinear_clahe(&maps, 9, 16, 16, 32, 2, 2), 0);
    assert_eq!(bilinear_clahe(&maps, 9, 48, 16, 32, 2, 2), 100);
    assert_eq!(bilinear_clahe(&maps, 9, 16, 48, 32, 2, 2), 200);
    assert_eq!(bilinear_clahe(&maps, 9, 48, 48, 32, 2, 2), 50);
    assert_eq!(bilinear_clahe(&maps, 9, 63, 63, 32, 2, 2), 50);
    assert_eq!(bilinear_clahe(&maps, 9, 32, 16, 32, 2, 2), 50);
    assert_eq!(bilinear_clahe(&maps, 9, 16, 32, 32, 2, 2), 100);
    assert_eq!(bilinear_clahe(&maps, 9, 32, 32, 32, 2, 2), 88);
    assert_eq!(bilinear_clahe(&maps, 9, 17, 16, 32, 2, 2), 3);
    let one = vec![vec![(0..=255).collect::<Vec<u8>>()]];
    assert_eq!(bilinear_clahe(&one, 77, 5, 9, 32, 1, 1), 77);
}

#[test]
fn equalisation_matches_floating_point_blending() {
    for (w, h, seed) in [(70, 45, 11), (32, 32, 12), (33, 1, 13), (1, 80, 14), (96, 64, 15)] {
        let img = noisy_gray(w, h, seed);
        let out = clahe(&img, 32, 2);
        assert_eq!((out.width, out.height), (w, h));
        assert_eq!(out.data, float_clahe(&img, 32, 2.0));
    }
    let img = smooth_gray(130, 70);
    assert_eq!(clahe(&img, 32, 2).data, float_clahe(&img, 32, 2.0));
}

#[test]
fn equalisation_of_an_image_without_pixels() {
    let out = clahe(&GrayImage { width: 0, height: 0, data: vec![] }, 32, 2);
    assert_eq!((out.width, out.height, out.data.len()), (0, 0, 0));
    let out = clahe(&GrayImage { width: 5, height: 0, data: vec![] }, 32, 2);
    assert_eq!((out.width, out.height, out.data.len()), (5, 0, 0));
}

#[test]
fn threshold_decisions() {
    assert!(passes_threshold(100, 625, 62_500, 6_250_000));
    assert!(passes_threshold(66, 625, 62_500, 6_250_000));
    assert!(!passes_threshold(65, 625, 62_500, 6_250_000));
    assert!(passes_threshold(0, 1, 0, 0));
    assert!(passes_threshold(255, 1, 255, 65_025));
    assert!(passes_threshold(0, 4, 0, 0));
    assert!(!passes_threshold(0, 2, 255, 65_025));
    assert!(passes_threshold(255, 2, 255, 65_025));
    assert!(!passes_threshold(127, 2, 255, 65_025));
    assert!(passes_threshold(128, 2, 255, 65_025));
}

#[test]
fn threshold_matches_floating_point_formula() {
    for (w, h, seed) in [(40, 30, 21), (25, 25, 22), (1, 1, 23), (60, 3, 24), (13, 50, 25)] {
        let img = noisy_gray(w, h, seed);
        let out = sauvola_threshold(&img);
        assert_eq!((out.width, out.height), (w, h));
        assert_eq!(out.data, float_sauvola(&img));
    }
    let img = smooth_gray(64, 48);
    assert_eq!(sauvola_threshold(&img).data, float_sauvola(&img));
}

#[test]
fn threshold_of_uniform_images_is_light() {
    for v in [0u8, 1, 128, 255] {
        let img = GrayImage { width: 30, height: 30, data: vec![v; 900] };
        assert!(sauvola_threshold(&img).data.iter().all(|p| *p == 255));
    }
}

#[test]
fn dark_text_on_light_ground_stays_dark() {
    let mut img = GrayImage { width: 40, height: 40, data: vec![220; 1600] };
    for y in 18..22 {
        for x in 5..35 {
            img.data[y * 40 + x] = 20;
        }
    }
    let out = sauvola_threshold(&img);
    assert_eq!(out.data[20 * 40 + 20], 0);
    assert_eq!(out.data[5 * 40 + 5], 255);
    assert_eq!(out.data[17 * 40 + 20], 255);
}

#[test]
fn binarize_removes_light_specks() {
    let mut img = GrayImage { width: 40, height: 40, data: vec![10; 1600] };
    for y in 10..30 {
        for x in 10..30 {
            img.data[y * 40 + x] = 240;
        }
    }
    let thresholded = sauvola_threshold(&img);
    let buf = image::GrayImage::from_raw(40, 40, thresholded.data.clone()).unwrap();
    let expected =
        imageproc::morphology::open(&buf, imageproc::distance_transform::Norm::LInf, 1);
    let out = binarize(&img);
    assert_eq!(out.data, expected.into_raw());
    assert!(out.data.iter().all(|p| *p == 0 || *p == 255));
    assert_eq!(out.data[20 * 40 + 20], 255);

    let mut speck = GrayImage { width: 9, height: 9, data: vec![0; 81] };
    speck.data[4 * 9 + 4] = 255;
    assert_eq!(sauvola_threshold(&speck).data.iter().filter(|p| **p == 0).count(), 80);
    let opened = binarize(&speck);
    assert_ne!(opened.data, sauvola_threshold(&speck).data);
    assert!(opened.data.iter().all(|p| *p == 0 || *p == 255));
}

#[test]
fn gamma_table_is_the_square_root_curve() {
    let lut = gamma_table();
    assert_eq!(lut.len(), 256);
    for i in 0..256usize {
        let expected = ((i as f64 / 255.0).powf(0.5) * 255.0).round() as u8;
        assert_eq!(lut[i], expected);
    }
    assert_eq!(lut[0], 0);
    assert_eq!(lut[1], 16);
    assert_eq!(lut[64], 128);
    assert_eq!(lut[255], 255);
}

#[test]
fn mean_brightness_rounds_down() {
    assert_eq!(mean_brightness(&GrayImage { width: 3, height: 1, data: vec![1, 2, 4] }), 2);
    assert_eq!(mean_brightness(&GrayImage { width: 2, height: 2, data: vec![255; 4] }), 255);
    assert_eq!(mean_brightness(&GrayImage { width: 0, height: 0, data: vec![] }), 0);
}

#[test]
fn dark_images_are_inverted() {
    let dark = GrayImage { width: 2, height: 2, data: vec![0, 10, 139, 255] };
    assert_eq!(auto_invert(dark).data, vec![255, 245, 116, 0]);
    let at_threshold = GrayImage { width: 2, height: 1, data: vec![140, 140] };
    assert_eq!(auto_invert(at_threshold).data, vec![140, 140]);
    let below = GrayImage { width: 2, height: 1, data: vec![139, 140] };
    assert_eq!(auto_invert(below).data, vec![116, 115]);
}

#[test]
fn underexposed_images_are_brightened() {
    let dark = GrayImage { width: 3, height: 1, data: vec![0, 64, 100] };
    assert_eq!(gamma_correct(dark).data, vec![0, 128, 160]);
    let fine = GrayImage { width: 2, height: 1, data: vec![80, 80] };
    assert_eq!(gamma_correct(fine).data, vec![80, 80]);
    let just_below = GrayImage { width: 2, height: 1, data: vec![79, 80] };
    assert_eq!(gamma_correct(just_below).data, vec![142, 143]);
}

#[test]
fn channel_extraction() {
    let img = RgbImage { width: 2, height: 2, data: (1..=12).collect() };
    assert_eq!(extract_channel(&img, 0).data, vec![1, 4, 7, 10]);
    assert_eq!(extract_channel(&img, 1).data, vec![2, 5, 8, 11]);
    assert_eq!(extract_channel(&img, 2).data, vec![3, 6, 9, 12]);
    assert_eq!(reduce_channels(&img, Preprocess::ChannelG).data, vec![2, 5, 8, 11]);
    let luma = reduce_channels(&img, Preprocess::Binary);
    assert_eq!((luma.width, luma.height, luma.data.len()), (2, 2, 4));
    let buf = image::RgbImage::from_raw(2, 2, img.data.clone()).unwrap();
    assert_eq!(luma.data, image::DynamicImage::ImageRgb8(buf).to_luma8().into_raw());
}

#[test]
fn white_border() {
    let img = GrayImage { width: 2, height: 1, data: vec![7, 9] };
    let out = pad_white(&img, 1);
    assert_eq!((out.width, out.height), (4, 3));
    assert_eq!(out.data, vec![255, 255, 255, 255, 255, 7, 9, 255, 255, 255, 255, 255]);
    let same = pad_white(&img, 0);
    assert_eq!(same.data, vec![7, 9]);
    let empty = pad_white(&GrayImage { width: 0, height: 0, data: vec![] }, 2);
    assert_eq!((empty.width, empty.height), (4, 4));
    assert_eq!(empty.data, vec![255; 16]);
}

fn reference_pipeline(crop: &RgbImage, mode: Preprocess) -> GrayImage {
    let buf = image::RgbImage::from_raw(crop.width, crop.height, crop.data.clone()).unwrap();
    let scaled = image::DynamicImage::ImageRgb8(buf).resize(
        crop.width * 6,
        crop.height * 6,
        image::imageops::FilterType::Lanczos3,
    );
    let rgb = scaled.to_rgb8();
    let pick = |c: usize| -> Vec<u8> { rgb.pixels().map(|p| p.0[c]).collect() };
    let mut data = match mode {
        Preprocess::ChannelR => pick(0),
        Preprocess::ChannelG => pick(1),
        Preprocess::ChannelB => pick(2),
        _ => scaled.to_luma8().into_raw(),
    };
    let (w, h) = (crop.width * 6, crop.height * 6);
    let count = (w * h).max(1) as u64;
    let mean = data.iter().map(|p| *p as u64).sum::<u64>() / count;
    if mean < 140 {
        for p in data.iter_mut() {
            *p = 255 - *p;
        }
    }
    let mean = data.iter().map(|p| *p as u64).sum::<u64>() / count;
    if mean < 80 {
        for p in data.iter_mut() {
            *p = ((*p as f64 / 255.0).powf(0.5) * 255.0).round() as u8;
        }
    }
    let equalised = float_clahe(&GrayImage { width: w, height: h, data }, 32, 2.0);
    let buf = image::GrayImage::from_raw(w, h, equalised).unwrap();
    let mut gray = imageproc::filter::gaussian_blur_f32(&buf, 1.0);
    if matches!(
        mode,
        Preprocess::Binary | Preprocess::ChannelR | Preprocess::ChannelG | Preprocess::ChannelB
    ) {
        let t = float_sauvola(&GrayImage { width: w, height: h, data: gray.into_raw() });
        let buf = image::GrayImage::from_raw(w, h, t).unwrap();
        gray = imageproc::morphology::open(&buf, imageproc::distance_transform::Norm::LInf, 1);
    }
    let mut padded = image::GrayImage::from_pixel(w + 30, h + 30, image::Luma([255u8]));
    image::imageops::overlay(&mut padded, &gray, 15, 15);
    GrayImage { width: w + 30, height: h + 30, data: padded.into_raw() }
}

fn display_crop(dark_ground: bool) -> RgbImage {
    let (w, h) = (24u32, 12u32);
    let mut img = noisy_rgb(w, h, 31);
    for y in 0..h {
        for x in 0..w {
            let on = (3..9).contains(&y) && (x % 6 == 2 || x % 6 == 3);
            let base: u8 = if on == dark_ground { 230 } else { 25 };
            let i = ((y * w + x) * 3) as usize;
            img.data[i] = base.wrapping_add(img.data[i] % 16);
            img.data[i + 1] = (base / 2).wrapping_add(img.data[i + 1] % 16);
            img.data[i + 2] = (base / 3).wrapping_add(img.data[i + 2] % 16);
        }
    }
    img
}

#[test]
fn pipeline_matches_the_floating_point_pipeline() {
    for dark_ground in [true, false] {
        let crop = display_crop(dark_ground);
        for mode in [
            Preprocess::Binary,
            Preprocess::Gray,
            Preprocess::ChannelR,
            Preprocess::ChannelG,
            Preprocess::ChannelB,
        ] {
            let out = preprocess_pipeline(&crop, mode);
            let expected = reference_pipeline(&crop, mode);
            assert_eq!((out.width, out.height), (24 * 6 + 30, 12 * 6 + 30));
            assert_eq!(out.data, expected.data);
        }
    }
}

#[test]
fn pipeline_output_has_a_white_border_and_the_enlarged_size() {
    let crop = noisy_rgb(5, 3, 41);
    for mode in [Preprocess::Binary, Preprocess::Gray, Preprocess::ChannelB] {
        let out = preprocess_pipeline(&crop, mode);
        assert_eq!(out.width, UPSCALE_FACTOR * 5 + 2 * BORDER_PAD);
        assert_eq!(out.height, UPSCALE_FACTOR * 3 + 2 * BORDER_PAD);
        assert_eq!(out.data.len(), (out.width * out.height) as usize);
        for y in 0..out.height {
            for x in 0..out.width {
                let inside = (15..15 + 30).contains(&x) && (15..15 + 18).contains(&y);
                if !inside {
                    assert_eq!(out.get(x, y), 255);
                }
            }
        }
        if mode != Preprocess::Gray {
            assert!(out.data.iter().all(|p| *p == 0 || *p == 255));
        }
    }
}

#[test]
fn enhance_equalises_the_upright_image() {
    let dark = noisy_gray(40, 40, 51);
    let mut dim = dark.data.clone();
    for p in dim.iter_mut() {
        *p /= 4;
    }
    let out = enhance(GrayImage { width: 40, height: 40, data: dim.clone() });
    let inverted: Vec<u8> = dim.iter().map(|p| 255 - *p).collect();
    assert_eq!(out.data, float_clahe(&GrayImage { width: 40, height: 40, data: inverted }, 32, 2.0));
}

#[test]
fn engine_names() {
    let name = |mode: Preprocess| {
        TesseractRecognizer { languages: vec![], preprocess: mode, tessdata_dir: None }.name()
    };
    assert_eq!(name(Preprocess::Binary), "tesseract/binary");
    assert_eq!(name(Preprocess::Gray), "tesseract/gray");
    assert_eq!(name(Preprocess::RawGray), "tesseract/raw-gray");
    assert_eq!(name(Preprocess::RawRgb), "tesseract/rgb");
    assert_eq!(name(Preprocess::ChannelR), "tesseract/channel-r");
    assert_eq!(name(Preprocess::ChannelG), "tesseract/channel-g");
    assert_eq!(name(Preprocess::ChannelB), "tesseract/channel-b");
    assert_eq!(OarRecognizer { color_mode: ColorMode::Rgb }.name(), "oar-ocr/rgb");
    assert_eq!(OarRecognizer { color_mode: ColorMode::Grayscale }.name(), "oar-ocr/gray");
}

#[test]
fn language_argument() {
    let langs = |v: &[&str]| build_lang(&v.iter().map(|s| s.to_string()).collect::<Vec<_>>());
    assert_eq!(langs(&[]), "eng");
    assert_eq!(langs(&["en"]), "eng");
    assert_eq!(langs(&["eng"]), "eng");
    assert_eq!(langs(&[" de ", "fr", "es", "ita"]), "deu+fra+spa+ita");
    assert_eq!(langs(&["deu", "fra", "spa"]), "deu+fra+spa");
    assert_eq!(langs(&["", " x y "]), "+x y");
    assert_eq!(langs(&["EN"]), "EN");
}

#[test]
fn segmentation_modes() {
    assert_eq!(page_segmentation_modes(), vec![7, 6, 8, 13]);
}

#[test]
fn confidence_is_a_hundredth_floored_at_zero() {
    assert_eq!(normalize_confidence(0), 0);
    assert_eq!(normalize_confidence(-1), 0);
    assert_eq!(normalize_confidence(i32::MIN), 0);
    assert_eq!(normalize_confidence(1), 10_000);
    assert_eq!(normalize_confidence(87), 870_000);
    assert_eq!(normalize_confidence(100), 1_000_000);
    assert_eq!(normalize_confidence(429_496), 4_294_960_000);
    assert_eq!(normalize_confidence(429_497), u32::MAX);
    assert_eq!(normalize_confidence(i32::MAX), u32::MAX);
}

#[test]
fn hypothesis_with_empty_text_is_dropped() {
    assert_eq!(read_hypothesis(" 12.5 \n", 91), Some(("12.5".to_string(), 910_000)));
    assert_eq!(read_hypothesis(" \n\t", 91), None);
    assert_eq!(read_hypothesis("", 0), None);
    assert_eq!(read_hypothesis("x", -5), Some(("x".to_string(), 0)));
}

#[test]
fn last_hypothesis_of_the_highest_confidence_is_kept() {
    let h = |t: &str, c: u32| (t.to_string(), c);
    assert_eq!(best_hypothesis(&[]), None);
    assert_eq!(best_hypothesis(&[h("a", 5)]), Some(0));
    assert_eq!(best_hypothesis(&[h("a", 5), h("b", 9), h("c", 7)]), Some(1));
    assert_eq!(best_hypothesis(&[h("a", 9), h("b", 9), h("c", 7), h("d", 9)]), Some(3));
    assert_eq!(best_hypothesis(&[h("a", 0), h("b", 0)]), Some(1));
}

#[test]
fn result_of_one_configuration() {
    let prepared = Prepared::Gray(noisy_gray(4, 3, 61));
    let hyps = vec![("12".to_string(), 500_000), ("13".to_string(), 800_000)];
    let r = run_ocr_bytes(&prepared, &hyps, "tesseract/gray").unwrap();
    assert_eq!(r.text, "13");
    assert_eq!(r.confidence, 800_000);
    assert_eq!(r.engine_name, "tesseract/gray");
    assert_eq!(r.preview_b64, encode_png(prepared.bytes(), 4, 3, PixelLayout::Gray));
    assert!(!r.preview_b64.is_empty());
    assert!(run_ocr_bytes(&prepared, &[], "tesseract/gray").is_none());
    let rgb = Prepared::Rgb(noisy_rgb(2, 2, 62));
    assert_eq!((rgb.width(), rgb.height(), rgb.bytes_per_pixel()), (2, 2, 3));
    assert_eq!(rgb.layout(), PixelLayout::Rgb);
    assert_eq!(prepared.bytes_per_pixel(), 1);
    let r = run_ocr_bytes(&rgb, &hyps, "tesseract/rgb").unwrap();
    assert_eq!(r.preview_b64, encode_png(rgb.bytes(), 2, 2, PixelLayout::Rgb));
}

#[test]
fn preparation_by_mode() {
    let crop = noisy_rgb(6, 4, 71);
    let engine = |mode: Preprocess| TesseractRecognizer {
        languages: vec![],
        preprocess: mode,
        tessdata_dir: None,
    };
    match engine(Preprocess::RawRgb).prepare(&crop).unwrap() {
        Prepared::Rgb(c) => assert_eq!(c.data, crop.data),
        Prepared::Gray(_) => panic!("expected the colour image"),
    }
    match engine(Preprocess::RawGray).prepare(&crop).unwrap() {
        Prepared::Gray(g) => {
            assert_eq!((g.width, g.height), (6, 4));
            let buf = image::RgbImage::from_raw(6, 4, crop.data.clone()).unwrap();
            assert_eq!(g.data, image::DynamicImage::ImageRgb8(buf).to_luma8().into_raw());
        }
        Prepared::Rgb(_) => panic!("expected a single channel"),
    }
    match engine(Preprocess::Binary).prepare(&crop).unwrap() {
        Prepared::Gray(g) => assert_eq!((g.width, g.height), (66, 54)),
        Prepared::Rgb(_) => panic!("expected a single channel"),
    }
    let gray = engine(Preprocess::Gray).prepare_gray(&crop);
    assert_eq!(gray.data, reference_pipeline(&crop, Preprocess::Gray).data);
    let empty = RgbImage { width: 0, height: 3, data: vec![] };
    assert!(engine(Preprocess::Binary).prepare(&empty).is_none());
    assert!(engine(Preprocess::RawRgb).prepare(&empty).is_some());
    assert!(engine(Preprocess::RawGray).prepare(&empty).is_some());
    let wide = RgbImage {
        width: MAX_CROP_SIDE + 1,
        height: 1,
        data: vec![0; 3 * (MAX_CROP_SIDE as usize + 1)],
    };
    assert!(engine(Preprocess::ChannelR).prepare(&wide).is_none());
    assert_eq!(MAX_CROP_SIDE, 7718);
}

#[test]
fn upscale_factor_is_the_ceiling_of_the_ratio() {
    assert_eq!(MIN_HEIGHT, 48);
    assert_eq!(upscale_factor(1), 48);
    assert_eq!(upscale_factor(16), 3);
    assert_eq!(upscale_factor(23), 3);
    assert_eq!(upscale_factor(24), 2);
    assert_eq!(upscale_factor(25), 2);
    assert_eq!(upscale_factor(47), 2);
    assert_eq!(upscale_factor(48), 1);
    assert_eq!(upscale_factor(4000), 1);
    for h in 1..200u32 {
        let s = upscale_factor(h);
        assert!(s * h >= 48 && (s - 1) * h < 48);
    }
}

#[test]
fn neural_preparation_reaches_the_minimum_height() {
    let crop = noisy_rgb(10, 20, 81);
    let rgb = OarRecognizer { color_mode: ColorMode::Rgb };
    let gray = OarRecognizer { color_mode: ColorMode::Grayscale };
    let fed = rgb.prepare(&crop).unwrap();
    assert_eq!((fed.width, fed.height), (30, 60));
    assert_eq!(fed.data.len(), 30 * 60 * 3);
    let buf = image::RgbImage::from_raw(10, 20, crop.data.clone()).unwrap();
    let expected = image::DynamicImage::ImageRgb8(buf.clone())
        .resize(30, 60, image::imageops::FilterType::Lanczos3)
        .to_rgb8();
    assert_eq!(fed.data, expected.into_raw());
    let fed = gray.prepare(&crop).unwrap();
    assert_eq!((fed.width, fed.height), (30, 60));
    let promoted =
        image::DynamicImage::ImageLuma8(image::DynamicImage::ImageRgb8(buf).to_luma8()).to_rgb8();
    let expected = image::DynamicImage::ImageRgb8(promoted)
        .resize(30, 60, image::imageops::FilterType::Lanczos3)
        .to_rgb8();
    assert_eq!(fed.data, expected.into_raw());
    assert!(fed.data.chunks(3).all(|p| p[0] == p[1] && p[1] == p[2]));

    let tall = noisy_rgb(3, 48, 82);
    assert_eq!(rgb.prepare(&tall).unwrap().data, tall.data);
    let fed = gray.prepare(&tall).unwrap();
    assert_eq!((fed.width, fed.height), (3, 48));
    assert_ne!(fed.data, tall.data);

    let empty = RgbImage { width: 0, height: 0, data: vec![] };
    assert!(rgb.prepare(&empty).is_none());
    let preview = OarRecognizer::preview(&tall);
    assert_eq!(preview, encode_png(&tall.data, 3, 48, PixelLayout::Rgb));
}

#[test]
fn neural_result_needs_text() {
    let engine = OarRecognizer { color_mode: ColorMode::Grayscale };
    let r = engine.finish(Some("12.5".to_string()), Some(930_000), "pre".to_string()).unwrap();
    assert_eq!(
        (r.text.as_str(), r.confidence, r.preview_b64.as_str(), r.engine_name.as_str()),
        ("12.5", 930_000, "pre", "oar-ocr/gray")
    );
    let r = engine.finish(Some(" 7 ".to_string()), None, String::new()).unwrap();
    assert_eq!((r.text.as_str(), r.confidence), (" 7 ", 0));
    assert!(engine.finish(Some(" \t\n".to_string()), Some(1), String::new()).is_none());
    assert!(engine.finish(Some(String::new()), Some(1), String::new()).is_none());
    assert!(engine.finish(None, Some(1), String::new()).is_none());
}
