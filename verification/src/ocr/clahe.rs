//! Contrast-limited adaptive histogram equalisation.
//!
//! The image is divided into a grid of square tiles. Each tile gets a tone
//! mapping from its clipped histogram; each pixel is mapped by the four
//! tiles whose centres are nearest, blended by its position between them.

use crate::raster::{lemma_pixel_index, GrayImage, MAX_SIDE};
use crate::rounding::{lemma_round_div_between, round_div};
use vstd::arithmetic::div_mod::{
    lemma_fundamental_div_mod, lemma_fundamental_div_mod_converse, lemma_mod_bound,
};
use vstd::prelude::*;

verus! {

/// The pixels of the rectangle from `(x0, y0)` to `(x1, y1)`, the latter
/// excluded, row by row.
pub open spec fn tile_pixels(img: GrayImage, x0: int, y0: int, x1: int, y1: int) -> Seq<u8> {
    Seq::new(
        ((x1 - x0) * (y1 - y0)) as nat,
        |k: int| img.pixel(x0 + k % (x1 - x0), y0 + k / (x1 - x0)),
    )
}

/// How often the value `v` occurs in `s`.
pub open spec fn count_of(s: Seq<u8>, v: int) -> nat
    decreases s.len(),
{
    if s.len() == 0 {
        0
    } else {
        count_of(s.drop_last(), v) + if s.last() == v {
            1nat
        } else {
            0nat
        }
    }
}

/// The most that one bin of a tile's histogram may hold: `factor` times
/// the average bin count, and at least 1.
pub open spec fn clip_limit(area: int, factor: int) -> int {
    if area * factor / 256 < 1 {
        1
    } else {
        area * factor / 256
    }
}

/// What the first `n` values hold above `clip`, in all.
pub open spec fn surplus(pixels: Seq<u8>, clip: int, n: int) -> int
    decreases n,
{
    if n <= 0 {
        0
    } else {
        surplus(pixels, clip, n - 1) + if count_of(pixels, n - 1) > clip {
            count_of(pixels, n - 1) - clip
        } else {
            0
        }
    }
}

/// The bin of value `v` after clipping: its count, held to `clip`, plus an
/// equal share of the surplus of all 256 bins; the first bins get one more
/// each until the remainder of the division is used up.
pub open spec fn clipped_bin(pixels: Seq<u8>, clip: int, v: int) -> int {
    let held = if count_of(pixels, v) > clip {
        clip
    } else {
        count_of(pixels, v) as int
    };
    let extra = surplus(pixels, clip, 256);
    held + extra / 256 + if v < extra % 256 {
        1int
    } else {
        0int
    }
}

/// The sum of the clipped bins of the values below `n`.
pub open spec fn cumulative(pixels: Seq<u8>, clip: int, n: int) -> int
    decreases n,
{
    if n <= 0 {
        0
    } else {
        cumulative(pixels, clip, n - 1) + clipped_bin(pixels, clip, n - 1)
    }
}

/// The output level of the value `v` under the tone mapping of a tile that
/// holds `pixels`: the cumulative clipped histogram up to `v`, scaled to
/// 0..=255.
pub open spec fn tone_level(pixels: Seq<u8>, factor: int, v: int) -> int {
    let level = cumulative(pixels, clip_limit(pixels.len() as int, factor), v + 1) * 255 / (
    pixels.len() as int);
    if level > 255 {
        255
    } else {
        level
    }
}

/// The tone mapping of a tile that holds `pixels`: 256 output levels.
pub open spec fn tone_map(pixels: Seq<u8>, factor: int) -> Seq<u8> {
    Seq::new(256, |v: int| tone_level(pixels, factor, v) as u8)
}

/// The left or upper edge of tile `t`.
pub open spec fn tile_start(t: int, tile_size: int) -> int {
    t * tile_size
}

/// The right or lower edge of tile `t`, held to the side of the image.
pub open spec fn tile_end(t: int, tile_size: int, side: int) -> int {
    if (t + 1) * tile_size < side {
        (t + 1) * tile_size
    } else {
        side
    }
}

/// The pixels of tile `(tx, ty)` of `img`.
pub open spec fn pixels_of_tile(img: GrayImage, tx: int, ty: int, tile_size: int) -> Seq<u8> {
    tile_pixels(
        img,
        tile_start(tx, tile_size),
        tile_start(ty, tile_size),
        tile_end(tx, tile_size, img.width as int),
        tile_end(ty, tile_size, img.height as int),
    )
}

proof fn lemma_count_bound(s: Seq<u8>, v: int)
    ensures
        count_of(s, v) <= s.len(),
    decreases s.len(),
{
    if s.len() > 0 {
        lemma_count_bound(s.drop_last(), v);
    }
}

proof fn lemma_surplus_bound(pixels: Seq<u8>, clip: int, n: int)
    requires
        0 <= n,
        0 <= clip,
    ensures
        0 <= surplus(pixels, clip, n) <= n * pixels.len(),
    decreases n,
{
    if n > 0 {
        lemma_surplus_bound(pixels, clip, n - 1);
        lemma_count_bound(pixels, n - 1);
        assert((n - 1) * pixels.len() + pixels.len() == n * pixels.len()) by (nonlinear_arith);
    }
}

proof fn lemma_clipped_bin_bound(pixels: Seq<u8>, clip: int, v: int)
    requires
        0 <= clip,
    ensures
        0 <= clipped_bin(pixels, clip, v) <= 2 * pixels.len() + 1,
{
    lemma_count_bound(pixels, v);
    lemma_surplus_bound(pixels, clip, 256);
}

/// The tile is a rectangle within the image with at least one pixel.
proof fn lemma_tile_in_image(t: int, tile_size: int, side: int)
    requires
        0 <= t,
        0 < tile_size,
        t * tile_size < side,
    ensures
        0 <= tile_start(t, tile_size) < tile_end(t, tile_size, side) <= side,
        tile_end(t, tile_size, side) - tile_start(t, tile_size) <= tile_size,
{
    assert((t + 1) * tile_size == t * tile_size + tile_size) by (nonlinear_arith);
    assert(0 <= t * tile_size) by (nonlinear_arith)
        requires
            0 <= t,
            0 < tile_size,
    ;
}

/// Builds the tone mapping from input value to output level for one tile
/// of the grid.
pub fn tile_mapping(img: &GrayImage, tx: u32, ty: u32, tile_size: u32, clip_limit_factor: u32) -> (map:
    Vec<u8>)
    requires
        img.fits(),
        0 < tile_size <= MAX_SIDE,
        tx * tile_size < img.width,
        ty * tile_size < img.height,
    ensures
        map@ == tone_map(
            pixels_of_tile(*img, tx as int, ty as int, tile_size as int),
            clip_limit_factor as int,
        ),
{
    let w = img.width;
    let h = img.height;
    proof {
        lemma_tile_in_image(tx as int, tile_size as int, w as int);
        lemma_tile_in_image(ty as int, tile_size as int, h as int);
    }
    assert((tx + 1) * tile_size == tx * tile_size + tile_size && (ty + 1) * tile_size == ty
        * tile_size + tile_size) by (nonlinear_arith);
    let x0: u32 = tx * tile_size;
    let y0: u32 = ty * tile_size;
    let x1: u32 = if x0 + tile_size < w {
        x0 + tile_size
    } else {
        w
    };
    let y1: u32 = if y0 + tile_size < h {
        y0 + tile_size
    } else {
        h
    };
    let tw: u32 = x1 - x0;
    let th: u32 = y1 - y0;
    assert(0 < tw * th <= MAX_SIDE * MAX_SIDE) by (nonlinear_arith)
        requires
            0 < tw <= MAX_SIDE,
            0 < th <= MAX_SIDE,
    ;
    let tile_area: u64 = tw as u64 * th as u64;
    let ghost pixels = pixels_of_tile(*img, tx as int, ty as int, tile_size as int);
    assert(pixels.len() == tile_area);

    let mut hist: Vec<u64> = vec![0u64; 256];
    let mut py: u32 = y0;
    assert(pixels.take(0) =~= Seq::<u8>::empty());
    assert((py - y0) * tw == 0) by (nonlinear_arith)
        requires
            py == y0,
    ;
    while py < y1
        invariant
            img.wf(),
            w == img.width,
            h == img.height,
            x0 < x1 <= w,
            y0 <= py <= y1 <= h,
            tw == x1 - x0,
            th == y1 - y0,
            tile_area == tw * th,
            pixels == tile_pixels(*img, x0 as int, y0 as int, x1 as int, y1 as int),
            pixels.len() == tile_area,
            tile_area <= MAX_SIDE * MAX_SIDE,
            hist.len() == 256,
            (py - y0) * tw <= tile_area,
            forall|v: int|
                0 <= v < 256 ==> #[trigger] hist@[v] == count_of(
                    pixels.take((py - y0) * tw),
                    v,
                ),
        decreases y1 - py,
    {
        let mut px: u32 = x0;
        assert((py - y0) * tw + tw <= tile_area) by (nonlinear_arith)
            requires
                0 <= py - y0 < th,
                tile_area == tw * th,
                0 < tw,
        ;
        while px < x1
            invariant
                img.wf(),
                w == img.width,
                h == img.height,
                x0 <= px <= x1 <= w,
                y0 <= py < y1 <= h,
                tw == x1 - x0,
                0 < tw,
                pixels == tile_pixels(*img, x0 as int, y0 as int, x1 as int, y1 as int),
                pixels.len() == tile_area,
                tile_area <= MAX_SIDE * MAX_SIDE,
                hist.len() == 256,
                (py - y0) * tw + tw <= tile_area,
                forall|v: int|
                    0 <= v < 256 ==> #[trigger] hist@[v] == count_of(
                        pixels.take((py - y0) * tw + (px - x0)),
                        v,
                    ),
            decreases x1 - px,
        {
            let p = img.get(px, py);
            let ghost k = (py - y0) * tw + (px - x0);
            proof {
                lemma_fundamental_div_mod_converse(k, tw as int, (py - y0) as int, (px - x0) as int);
                assert(pixels[k] == p);
                assert(pixels.take(k + 1).drop_last() == pixels.take(k));
                assert(pixels.take(k + 1).last() == p);
                lemma_count_bound(pixels.take(k), p as int);
            }
            let seen = hist[p as usize];
            hist.set(p as usize, seen + 1);
            px += 1;
        }
        py += 1;
        assert((py - y0) * tw == (py - 1 - y0) * tw + tw) by (nonlinear_arith);
    }
    assert(pixels.take(tile_area as int) == pixels) by {
        assert((py - y0) * tw == tile_area) by (nonlinear_arith)
            requires
                py - y0 == th,
                tile_area == tw * th,
        ;
    }
    assert(py == y1);
    assert((y1 - y0) * tw == tile_area) by (nonlinear_arith)
        requires
            y1 - y0 == th,
            tile_area == tw * th,
    ;

    assert(tile_area * clip_limit_factor <= 0x8000_0000 * 0xffff_ffff) by (nonlinear_arith)
        requires
            tile_area <= MAX_SIDE * MAX_SIDE,
            clip_limit_factor <= 0xffff_ffff,
    ;
    let scaled: u64 = tile_area * clip_limit_factor as u64 / 256;
    let clip: u64 = if scaled < 1 {
        1
    } else {
        scaled
    };
    let mut excess: u64 = 0;
    let mut i: usize = 0;
    while i < 256
        invariant
            i <= 256,
            hist.len() == 256,
            pixels.len() == tile_area,
            tile_area <= MAX_SIDE * MAX_SIDE,
            excess == surplus(pixels, clip as int, i as int),
            forall|v: int| i <= v < 256 ==> #[trigger] hist@[v] == count_of(pixels, v),
            forall|v: int|
                0 <= v < i ==> #[trigger] hist@[v] == (if count_of(pixels, v) > clip {
                    clip as int
                } else {
                    count_of(pixels, v) as int
                }),
        decreases 256 - i,
    {
        proof {
            lemma_surplus_bound(pixels, clip as int, i as int);
            lemma_count_bound(pixels, i as int);
            assert(i * pixels.len() <= 256 * pixels.len()) by (nonlinear_arith)
                requires
                    i <= 256,
            ;
        }
        if hist[i] > clip {
            excess = excess + (hist[i] - clip);
            hist.set(i, clip);
        }
        i += 1;
    }
    let per_bin: u64 = excess / 256;
    let leftover: u64 = excess % 256;
    proof {
        lemma_surplus_bound(pixels, clip as int, 256);
    }
    let mut i: usize = 0;
    while i < 256
        invariant
            i <= 256,
            hist.len() == 256,
            pixels.len() == tile_area,
            tile_area <= MAX_SIDE * MAX_SIDE,
            excess == surplus(pixels, clip as int, 256),
            excess <= 256 * pixels.len(),
            per_bin == excess / 256,
            leftover == excess % 256,
            forall|v: int|
                i <= v < 256 ==> #[trigger] hist@[v] == (if count_of(pixels, v) > clip {
                    clip as int
                } else {
                    count_of(pixels, v) as int
                }),
            forall|v: int| 0 <= v < i ==> #[trigger] hist@[v] == clipped_bin(pixels, clip as int, v),
        decreases 256 - i,
    {
        proof {
            lemma_count_bound(pixels, i as int);
        }
        let bonus: u64 = if (i as u64) < leftover {
            1
        } else {
            0
        };
        let bin = hist[i];
        hist.set(i, bin + per_bin + bonus);
        i += 1;
    }
    let mut mapping: Vec<u8> = vec![0u8; 256];
    let mut cdf: u64 = 0;
    let mut i: usize = 0;
    while i < 256
        invariant
            i <= 256,
            hist.len() == 256,
            mapping.len() == 256,
            pixels.len() == tile_area,
            0 < tile_area <= MAX_SIDE * MAX_SIDE,
            clip == clip_limit(pixels.len() as int, clip_limit_factor as int),
            cdf == cumulative(pixels, clip as int, i as int),
            cdf <= i * (2 * tile_area + 1),
            forall|v: int| 0 <= v < 256 ==> #[trigger] hist@[v] == clipped_bin(pixels, clip as int, v),
            forall|v: int|
                0 <= v < i ==> #[trigger] mapping@[v] == tone_level(
                    pixels,
                    clip_limit_factor as int,
                    v,
                ) as u8,
        decreases 256 - i,
    {
        proof {
            lemma_clipped_bin_bound(pixels, clip as int, i as int);
            assert((i + 1) * (2 * tile_area + 1) == i * (2 * tile_area + 1) + (2 * tile_area + 1))
                by (nonlinear_arith);
            assert((i + 1) * (2 * tile_area + 1) <= 256 * (2 * tile_area + 1)) by (nonlinear_arith)
                requires
                    i < 256,
            ;
        }
        cdf = cdf + hist[i];
        let level: u64 = cdf * 255 / tile_area;
        let held: u8 = if level > 255 {
            255
        } else {
            level as u8
        };
        mapping.set(i, held);
        i += 1;
    }
    assert(mapping@ =~= tone_map(pixels, clip_limit_factor as int));
    mapping
}

/// The tile whose centre is the nearest at or before position `pos`, held
/// to the grid of `tiles` tiles.
pub open spec fn lower_tile(pos: int, tile_size: int, tiles: int) -> int {
    let t = if 2 * pos < tile_size {
        0
    } else {
        (2 * pos - tile_size) / (2 * tile_size)
    };
    if t > tiles - 1 {
        tiles - 1
    } else {
        t
    }
}

/// The tile after `lower_tile`, held to the grid.
pub open spec fn upper_tile(pos: int, tile_size: int, tiles: int) -> int {
    if lower_tile(pos, tile_size, tiles) + 1 > tiles - 1 {
        tiles - 1
    } else {
        lower_tile(pos, tile_size, tiles) + 1
    }
}

/// How far position `pos` lies from the centre of `lower_tile` towards the
/// centre of the next tile, in parts of `2 * tile_size`, held to
/// `0..=2 * tile_size`.
pub open spec fn tile_weight(pos: int, tile_size: int, tiles: int) -> int {
    let raw = 2 * pos - tile_size - 2 * tile_size * lower_tile(pos, tile_size, tiles);
    if raw < 0 {
        0
    } else if raw > 2 * tile_size {
        2 * tile_size
    } else {
        raw
    }
}

/// The bilinear blend of four levels: `fx / d` of the way from the left
/// pair to the right pair, `fy / d` of the way from the upper pair to the
/// lower pair, rounded to the nearest integer.
pub open spec fn blend(v00: int, v10: int, v01: int, v11: int, fx: int, fy: int, d: int) -> int {
    round_div((v00 * (d - fx) + v10 * fx) * (d - fy) + (v01 * (d - fx) + v11 * fx) * fy, d * d)
}

/// A blend of levels up to 255 is a level up to 255.
pub proof fn lemma_blend_bound(v00: int, v10: int, v01: int, v11: int, fx: int, fy: int, d: int)
    requires
        0 <= v00 <= 255,
        0 <= v10 <= 255,
        0 <= v01 <= 255,
        0 <= v11 <= 255,
        0 <= fx <= d,
        0 <= fy <= d,
        0 < d,
    ensures
        0 <= blend(v00, v10, v01, v11, fx, fy, d) <= 255,
        0 <= v00 * (d - fx) + v10 * fx <= 255 * d,
        0 <= v01 * (d - fx) + v11 * fx <= 255 * d,
        0 <= (v00 * (d - fx) + v10 * fx) * (d - fy) + (v01 * (d - fx) + v11 * fx) * fy <= 255 * (d
            * d),
{
    let top = v00 * (d - fx) + v10 * fx;
    let bot = v01 * (d - fx) + v11 * fx;
    assert(0 <= top <= 255 * d) by (nonlinear_arith)
        requires
            top == v00 * (d - fx) + v10 * fx,
            0 <= v00 <= 255,
            0 <= v10 <= 255,
            0 <= fx <= d,
    ;
    assert(0 <= bot <= 255 * d) by (nonlinear_arith)
        requires
            bot == v01 * (d - fx) + v11 * fx,
            0 <= v01 <= 255,
            0 <= v11 <= 255,
            0 <= fx <= d,
    ;
    let n = top * (d - fy) + bot * fy;
    assert(0 <= n <= 255 * (d * d)) by (nonlinear_arith)
        requires
            n == top * (d - fy) + bot * fy,
            0 <= top <= 255 * d,
            0 <= bot <= 255 * d,
            0 <= fy <= d,
    ;
    assert(0 * (d * d) <= n);
    assert(d * d > 0) by (nonlinear_arith)
        requires
            d > 0,
    ;
    lemma_round_div_between(n, d * d, 0, 255);
}

/// The lower tile, the upper tile and the weight for position `pos`.
fn tile_position(pos: u32, tile_size: u32, tiles: u32) -> (r: (usize, usize, u64))
    requires
        pos <= MAX_SIDE,
        0 < tile_size <= MAX_SIDE,
        0 < tiles,
    ensures
        r.0 == lower_tile(pos as int, tile_size as int, tiles as int),
        r.1 == upper_tile(pos as int, tile_size as int, tiles as int),
        r.2 == tile_weight(pos as int, tile_size as int, tiles as int),
        r.0 < tiles,
        r.1 < tiles,
        r.2 <= 2 * tile_size,
{
    let d: u64 = 2 * tile_size as u64;
    let twice: u64 = 2 * pos as u64;
    let unclamped: u64 = if twice < tile_size as u64 {
        0
    } else {
        (twice - tile_size as u64) / d
    };
    let t0: u64 = if unclamped > tiles as u64 - 1 {
        tiles as u64 - 1
    } else {
        unclamped
    };
    let t1: u64 = if t0 + 1 > tiles as u64 - 1 {
        tiles as u64 - 1
    } else {
        t0 + 1
    };
    assert(d * t0 <= d * unclamped) by (nonlinear_arith)
        requires
            t0 <= unclamped,
    ;
    proof {
        if twice >= tile_size {
            lemma_fundamental_div_mod(twice - tile_size, d as int);
            lemma_mod_bound(twice - tile_size, d as int);
        } else {
            assert(d * unclamped == 0);
        }
    }
    let base: u64 = d * t0 + tile_size as u64;
    let weight: u64 = if twice < base {
        0
    } else if twice - base > d {
        d
    } else {
        twice - base
    };
    (t0 as usize, t1 as usize, weight)
}

/// Blends the levels that the four tile mappings nearest to pixel
/// `(x, y)` give to `pixel`.
pub fn bilinear_clahe(
    maps: &Vec<Vec<Vec<u8>>>,
    pixel: u8,
    x: u32,
    y: u32,
    tile_size: u32,
    tiles_x: u32,
    tiles_y: u32,
) -> (level: u8)
    requires
        x <= MAX_SIDE,
        y <= MAX_SIDE,
        0 < tile_size <= MAX_SIDE,
        0 < tiles_x,
        0 < tiles_y,
        maps@.len() == tiles_y,
        forall|ty: int| 0 <= ty < tiles_y ==> (#[trigger] maps@[ty])@.len() == tiles_x,
        forall|ty: int, tx: int|
            0 <= ty < tiles_y && 0 <= tx < tiles_x ==> (#[trigger] maps@[ty]@[tx])@.len() == 256,
    ensures
        level == blend(
            maps@[lower_tile(y as int, tile_size as int, tiles_y as int)]@[lower_tile(
                x as int,
                tile_size as int,
                tiles_x as int,
            )]@[pixel as int] as int,
            maps@[lower_tile(y as int, tile_size as int, tiles_y as int)]@[upper_tile(
                x as int,
                tile_size as int,
                tiles_x as int,
            )]@[pixel as int] as int,
            maps@[upper_tile(y as int, tile_size as int, tiles_y as int)]@[lower_tile(
                x as int,
                tile_size as int,
                tiles_x as int,
            )]@[pixel as int] as int,
            maps@[upper_tile(y as int, tile_size as int, tiles_y as int)]@[upper_tile(
                x as int,
                tile_size as int,
                tiles_x as int,
            )]@[pixel as int] as int,
            tile_weight(x as int, tile_size as int, tiles_x as int),
            tile_weight(y as int, tile_size as int, tiles_y as int),
            2 * tile_size,
        ),
{
    let (tx0, tx1, fx) = tile_position(x, tile_size, tiles_x);
    let (ty0, ty1, fy) = tile_position(y, tile_size, tiles_y);
    let d: u64 = 2 * tile_size as u64;
    assert((maps@[ty0 as int]@[tx0 as int])@.len() == 256);
    assert((maps@[ty0 as int]@[tx1 as int])@.len() == 256);
    assert((maps@[ty1 as int]@[tx0 as int])@.len() == 256);
    assert((maps@[ty1 as int]@[tx1 as int])@.len() == 256);
    let v00: u64 = maps[ty0][tx0][pixel as usize] as u64;
    let v10: u64 = maps[ty0][tx1][pixel as usize] as u64;
    let v01: u64 = maps[ty1][tx0][pixel as usize] as u64;
    let v11: u64 = maps[ty1][tx1][pixel as usize] as u64;
    proof {
        lemma_blend_bound(
            v00 as int,
            v10 as int,
            v01 as int,
            v11 as int,
            fx as int,
            fy as int,
            d as int,
        );
        assert(d * d <= 92_680 * 92_680) by (nonlinear_arith)
            requires
                d <= 92_680,
        ;
        assert(v00 * (d - fx) <= 255 * d && v10 * fx <= 255 * d && v01 * (d - fx) <= 255 * d && v11
            * fx <= 255 * d) by (nonlinear_arith)
            requires
                v00 <= 255,
                v10 <= 255,
                v01 <= 255,
                v11 <= 255,
                0 <= fx <= d,
        ;
    }
    let top: u64 = v00 * (d - fx) + v10 * fx;
    let bot: u64 = v01 * (d - fx) + v11 * fx;
    assert(top * (d - fy) <= 255 * (d * d) && bot * fy <= 255 * (d * d)) by (nonlinear_arith)
        requires
            top <= 255 * d,
            bot <= 255 * d,
            0 <= fy <= d,
    ;
    let n: u64 = top * (d - fy) + bot * fy;
    let dd: u64 = d * d;
    assert(dd > 0) by (nonlinear_arith)
        requires
            dd == d * d,
            d > 0,
    ;
    ((2 * n + dd) / (2 * dd)) as u8
}

/// The number of tiles of side `tile_size` that cover a side of the image.
pub open spec fn tiles_along(side: int, tile_size: int) -> int {
    (side + tile_size - 1) / tile_size
}

/// The level that the tone mapping of tile `(tx, ty)` gives to the value `v`.
pub open spec fn tile_tone(img: GrayImage, tx: int, ty: int, tile_size: int, factor: int, v: int) -> int {
    tone_map(pixels_of_tile(img, tx, ty, tile_size), factor)[v] as int
}

/// The level of pixel `(x, y)` after equalisation.
pub open spec fn clahe_level(img: GrayImage, x: int, y: int, tile_size: int, factor: int) -> int {
    let tiles_x = tiles_along(img.width as int, tile_size);
    let tiles_y = tiles_along(img.height as int, tile_size);
    let tx0 = lower_tile(x, tile_size, tiles_x);
    let tx1 = upper_tile(x, tile_size, tiles_x);
    let ty0 = lower_tile(y, tile_size, tiles_y);
    let ty1 = upper_tile(y, tile_size, tiles_y);
    let v = img.pixel(x, y) as int;
    blend(
        tile_tone(img, tx0, ty0, tile_size, factor, v),
        tile_tone(img, tx1, ty0, tile_size, factor, v),
        tile_tone(img, tx0, ty1, tile_size, factor, v),
        tile_tone(img, tx1, ty1, tile_size, factor, v),
        tile_weight(x, tile_size, tiles_x),
        tile_weight(y, tile_size, tiles_y),
        2 * tile_size,
    )
}

/// The pixels of the equalised image, row by row.
pub open spec fn clahe_pixels(img: GrayImage, tile_size: int, factor: int) -> Seq<u8> {
    Seq::new(
        (img.width * img.height) as nat,
        |k: int|
            clahe_level(img, k % (img.width as int), k / (img.width as int), tile_size, factor) as u8,
    )
}

/// Every tile of the grid starts within the image.
proof fn lemma_tiles_cover(side: int, tile_size: int, t: int)
    requires
        0 <= side,
        0 < tile_size,
        0 <= t < tiles_along(side, tile_size),
    ensures
        t * tile_size < side,
        tiles_along(side, tile_size) <= side,
{
    let n = side + tile_size - 1;
    lemma_fundamental_div_mod(n, tile_size);
    lemma_mod_bound(n, tile_size);
    let q = n / tile_size;
    assert(t * tile_size <= (q - 1) * tile_size) by (nonlinear_arith)
        requires
            t <= q - 1,
            0 < tile_size,
    ;
    assert((q - 1) * tile_size == tile_size * q - tile_size) by (nonlinear_arith);
    assert(q <= side) by (nonlinear_arith)
        requires
            tile_size * q <= side + tile_size - 1,
            0 < tile_size,
            0 <= side,
            0 < q,
    ;
}

/// Contrast-limited adaptive histogram equalisation of `img` with square
/// tiles of side `tile_size`.
pub fn clahe(img: &GrayImage, tile_size: u32, clip_limit_factor: u32) -> (out: GrayImage)
    requires
        img.fits(),
        0 < tile_size <= MAX_SIDE,
    ensures
        out.wf(),
        out.width == img.width,
        out.height == img.height,
        out.data@ == clahe_pixels(*img, tile_size as int, clip_limit_factor as int),
{
    let width = img.width;
    let height = img.height;
    let tiles_x: u32 = ((width as u64 + tile_size as u64 - 1) / tile_size as u64) as u32;
    let tiles_y: u32 = ((height as u64 + tile_size as u64 - 1) / tile_size as u64) as u32;

    let mut maps: Vec<Vec<Vec<u8>>> = Vec::new();
    let mut ty: u32 = 0;
    while ty < tiles_y
        invariant
            img.fits(),
            0 < tile_size <= MAX_SIDE,
            width == img.width,
            height == img.height,
            tiles_x == tiles_along(width as int, tile_size as int),
            tiles_y == tiles_along(height as int, tile_size as int),
            ty <= tiles_y,
            maps@.len() == ty,
            forall|j: int| 0 <= j < ty ==> (#[trigger] maps@[j])@.len() == tiles_x,
            forall|j: int, i: int|
                0 <= j < ty && 0 <= i < tiles_x ==> (#[trigger] maps@[j]@[i])@ == tone_map(
                    pixels_of_tile(*img, i, j, tile_size as int),
                    clip_limit_factor as int,
                ),
        decreases tiles_y - ty,
    {
        let mut row: Vec<Vec<u8>> = Vec::new();
        let mut tx: u32 = 0;
        while tx < tiles_x
            invariant
                img.fits(),
                0 < tile_size <= MAX_SIDE,
                width == img.width,
                height == img.height,
                tiles_x == tiles_along(width as int, tile_size as int),
                tiles_y == tiles_along(height as int, tile_size as int),
                ty < tiles_y,
                tx <= tiles_x,
                row@.len() == tx,
                forall|i: int|
                    0 <= i < tx ==> (#[trigger] row@[i])@ == tone_map(
                        pixels_of_tile(*img, i, ty as int, tile_size as int),
                        clip_limit_factor as int,
                    ),
            decreases tiles_x - tx,
        {
            proof {
                lemma_tiles_cover(width as int, tile_size as int, tx as int);
                lemma_tiles_cover(height as int, tile_size as int, ty as int);
            }
            let map = tile_mapping(img, tx, ty, tile_size, clip_limit_factor);
            row.push(map);
            tx += 1;
        }
        maps.push(row);
        ty += 1;
    }

    let mut data: Vec<u8> = Vec::new();
    let ghost want = clahe_pixels(*img, tile_size as int, clip_limit_factor as int);
    let mut y: u32 = 0;
    assert(y * width == 0) by (nonlinear_arith)
        requires
            y == 0,
    ;
    while y < height
        invariant
            img.fits(),
            0 < tile_size <= MAX_SIDE,
            width == img.width,
            height == img.height,
            tiles_x == tiles_along(width as int, tile_size as int),
            tiles_y == tiles_along(height as int, tile_size as int),
            y <= height,
            want == clahe_pixels(*img, tile_size as int, clip_limit_factor as int),
            maps@.len() == tiles_y,
            forall|j: int| 0 <= j < tiles_y ==> (#[trigger] maps@[j])@.len() == tiles_x,
            forall|j: int, i: int|
                0 <= j < tiles_y && 0 <= i < tiles_x ==> (#[trigger] maps@[j]@[i])@ == tone_map(
                    pixels_of_tile(*img, i, j, tile_size as int),
                    clip_limit_factor as int,
                ),
            data@.len() == y * width,
            forall|k: int| 0 <= k < data@.len() ==> data@[k] == want[k],
        decreases height - y,
    {
        let mut x: u32 = 0;
        while x < width
            invariant
                img.fits(),
                0 < tile_size <= MAX_SIDE,
                width == img.width,
                height == img.height,
                tiles_x == tiles_along(width as int, tile_size as int),
                tiles_y == tiles_along(height as int, tile_size as int),
                y < height,
                x <= width,
                want == clahe_pixels(*img, tile_size as int, clip_limit_factor as int),
                maps@.len() == tiles_y,
                forall|j: int| 0 <= j < tiles_y ==> (#[trigger] maps@[j])@.len() == tiles_x,
                forall|j: int, i: int|
                    0 <= j < tiles_y && 0 <= i < tiles_x ==> (#[trigger] maps@[j]@[i])@
                        == tone_map(
                        pixels_of_tile(*img, i, j, tile_size as int),
                        clip_limit_factor as int,
                    ),
                data@.len() == y * width + x,
                forall|k: int| 0 <= k < data@.len() ==> data@[k] == want[k],
            decreases width - x,
        {
            proof {
                lemma_fundamental_div_mod(width + tile_size - 1, tile_size as int);
                lemma_mod_bound(width + tile_size - 1, tile_size as int);
                lemma_fundamental_div_mod(height + tile_size - 1, tile_size as int);
                lemma_mod_bound(height + tile_size - 1, tile_size as int);
                assert(tiles_x > 0) by (nonlinear_arith)
                    requires
                        width + tile_size - 1 == tile_size * tiles_x + (width + tile_size - 1)
                            % (tile_size as int),
                        (width + tile_size - 1) % (tile_size as int) < tile_size,
                        width > 0,
                        tile_size > 0,
                ;
                assert(tiles_y > 0) by (nonlinear_arith)
                    requires
                        height + tile_size - 1 == tile_size * tiles_y + (height + tile_size - 1)
                            % (tile_size as int),
                        (height + tile_size - 1) % (tile_size as int) < tile_size,
                        height > 0,
                        tile_size > 0,
                ;
            }
            let pixel = img.get(x, y);
            let v = bilinear_clahe(&maps, pixel, x, y, tile_size, tiles_x, tiles_y);
            proof {
                let k = y * width + x;
                lemma_fundamental_div_mod_converse(k, width as int, y as int, x as int);
                lemma_pixel_index(x as int, y as int, width as int, height as int);
                assert(want[k] == v);
            }
            data.push(v);
            x += 1;
        }
        y += 1;
        assert(y * width == (y - 1) * width + width) by (nonlinear_arith);
    }
    assert(height * width == width * height) by (nonlinear_arith);
    assert(data@ =~= want);
    GrayImage { width, height, data }
}

} // verus!
