//! What is computed around the decoding of a video: the frame rate, the
//! number of frames, frame numbers and their timestamps, and the packing of
//! a decoded frame into tight rows of RGB bytes.

use crate::rounding::round_div;
use vstd::prelude::*;

verus! {

/// Microseconds per second: the time base of the container.
pub const MICROS_PER_SECOND: u64 = 1_000_000;

/// A frame rate as a fraction: `num / den` frames per second.
#[derive(Debug, Clone, Copy, PartialEq, Eq)]
pub struct FrameRate {
    pub num: u32,
    pub den: u32,
}

impl FrameRate {
    /// Both terms of the fraction are positive.
    pub open spec fn wf(&self) -> bool {
        self.num > 0 && self.den > 0
    }
}

/// What is known of a video before any frame is decoded.
#[derive(Debug, Clone, Copy)]
pub struct VideoInfo {
    pub fps: FrameRate,
    pub width: u32,
    pub height: u32,
    pub total_frames: u64,
    /// In microseconds.
    pub duration: i64,
}

/// The frame rate of a stream from the average frame rate that the
/// container reports: the reported fraction where both of its terms are
/// positive, else 30 frames per second.
pub fn frame_rate(num: i32, den: i32) -> (fps: FrameRate)
    ensures
        fps.wf(),
        num > 0 && den > 0 ==> fps.num == num && fps.den == den,
        !(num > 0 && den > 0) ==> fps.num == 30 && fps.den == 1,
{
    if num > 0 && den > 0 {
        FrameRate { num: num as u32, den: den as u32 }
    } else {
        FrameRate { num: 30, den: 1 }
    }
}

/// The number of the frame that is shown at `timestamp` microseconds:
/// the timestamp times the frame rate, rounded to the nearest frame and
/// held to the largest `u64`; 0 for a timestamp before the start.
pub open spec fn frame_at(timestamp: int, fps: FrameRate) -> int {
    if timestamp <= 0 {
        0
    } else if round_div(timestamp * fps.num, fps.den * MICROS_PER_SECOND) > u64::MAX {
        u64::MAX as int
    } else {
        round_div(timestamp * fps.num, fps.den * MICROS_PER_SECOND)
    }
}

/// The number of the frame that is shown at `timestamp` microseconds.
pub fn frame_number_at(timestamp: i64, fps: FrameRate) -> (frame: u64)
    requires
        fps.wf(),
    ensures
        frame == frame_at(timestamp as int, fps),
{
    if timestamp <= 0 {
        return 0;
    }
    assert(timestamp * fps.num <= 0x7fff_ffff_ffff_ffff * 0xffff_ffff) by (nonlinear_arith)
        requires
            0 < timestamp <= 0x7fff_ffff_ffff_ffff,
            0 < fps.num <= 0xffff_ffff,
    ;
    let n: u128 = timestamp as u128 * fps.num as u128;
    assert(fps.den * 1_000_000 <= 0xffff_ffff * 1_000_000) by (nonlinear_arith)
        requires
            0 < fps.den <= 0xffff_ffff,
    ;
    let d: u128 = fps.den as u128 * MICROS_PER_SECOND as u128;
    let q: u128 = (2 * n + d) / (2 * d);
    if q > 0xffff_ffff_ffff_ffff {
        0xffff_ffff_ffff_ffff
    } else {
        q as u64
    }
}

/// The time in microseconds at which frame `frame` is shown: the frame
/// number divided by the frame rate, rounded to the nearest microsecond and
/// held to the largest `i64`.
pub open spec fn time_of_frame(frame: int, fps: FrameRate) -> int {
    let t = round_div(frame * (fps.den * MICROS_PER_SECOND), fps.num as int);
    if t > i64::MAX {
        i64::MAX as int
    } else {
        t
    }
}

/// The time in microseconds at which frame `frame` is shown.
pub fn timestamp_of(frame: u64, fps: FrameRate) -> (timestamp: i64)
    requires
        fps.wf(),
    ensures
        timestamp == time_of_frame(frame as int, fps),
{
    let per_frame: u128 = fps.den as u128 * MICROS_PER_SECOND as u128;
    assert(per_frame <= 0xffff_ffff * 1_000_000) by (nonlinear_arith)
        requires
            per_frame == fps.den * 1_000_000,
            fps.den <= 0xffff_ffff,
    ;
    assert(frame * per_frame <= 0xffff_ffff_ffff_ffff * (0xffff_ffff * 1_000_000))
        by (nonlinear_arith)
        requires
            frame <= 0xffff_ffff_ffff_ffff,
            per_frame <= 0xffff_ffff * 1_000_000,
    ;
    let n: u128 = frame as u128 * per_frame;
    let d: u128 = fps.num as u128;
    let q: u128 = (2 * n + d) / (2 * d);
    if q > 0x7fff_ffff_ffff_ffff {
        0x7fff_ffff_ffff_ffff
    } else {
        q as i64
    }
}

/// The number of frames of a video: the count that the stream reports
/// where it is positive, else the duration times the frame rate.
pub fn total_frames(reported: i64, duration: i64, fps: FrameRate) -> (frames: u64)
    requires
        fps.wf(),
    ensures
        frames == if reported > 0 {
            reported as int
        } else {
            frame_at(duration as int, fps)
        },
{
    if reported > 0 {
        reported as u64
    } else {
        frame_number_at(duration, fps)
    }
}

/// Why a decoded frame could not be packed.
#[derive(Debug, Clone, Copy, PartialEq, Eq)]
pub enum FrameError {
    /// The buffer holds fewer bytes than the frame needs.
    BufferTooSmall { have: usize, expected: u128 },
    /// The row of this number ends beyond the buffer.
    RowOutOfBounds { row: u32, stride: usize, have: usize },
}

/// The bytes of a frame of `width` by `height` pixels without the padding
/// that follows each row of `stride` bytes.
pub open spec fn packed_rows(data: Seq<u8>, stride: int, width: int, height: int) -> Seq<u8> {
    Seq::new((3 * width * height) as nat, |k: int| data[(k / (3 * width)) * stride + k % (3 * width)])
}

/// Every row of the frame lies within the buffer.
pub open spec fn rows_fit(len: int, stride: int, width: int, height: int) -> bool {
    if stride == 3 * width {
        len >= 3 * width * height
    } else {
        forall|row: int| 0 <= row < height ==> #[trigger] (row * stride) + 3 * width <= len
    }
}

/// Copies the RGB bytes of a decoded frame into a buffer of tight rows,
/// leaving out the padding at the end of each row where the stride is
/// longer than a row.
pub fn pack_rows(data: &[u8], stride: usize, width: u32, height: u32) -> (packed: Result<
    Vec<u8>,
    FrameError,
>)
    requires
        stride >= 3 * width,
    ensures
        packed is Ok <==> rows_fit(data@.len() as int, stride as int, width as int, height as int),
        packed matches Ok(rgb) ==> rgb@ == packed_rows(
            data@,
            stride as int,
            width as int,
            height as int,
        ),
        packed matches Err(FrameError::BufferTooSmall { have, expected }) ==> stride == 3 * width
            && have == data@.len() && expected == 3 * width * height,
        packed matches Err(FrameError::RowOutOfBounds { row, stride: s, have }) ==> stride != 3
            * width && s == stride && have == data@.len() && row < height && row * stride + 3
            * width > data@.len() && forall|r: int|
            0 <= r < row ==> #[trigger] (r * stride) + 3 * width <= data@.len(),
{
    let row_bytes: usize = 3 * width as usize;
    let len = data.len();
    let ghost want = packed_rows(data@, stride as int, width as int, height as int);
    let mut rgb: Vec<u8> = Vec::new();
    if stride == row_bytes {
        assert(row_bytes * height <= 0x3_0000_0000 * 0xffff_ffff) by (nonlinear_arith)
            requires
                row_bytes <= 0x3_0000_0000,
                height <= 0xffff_ffff,
        ;
        assert(row_bytes * height == 3 * width * height) by (nonlinear_arith)
            requires
                row_bytes == 3 * width,
        ;
        let expected: u128 = row_bytes as u128 * height as u128;
        if (len as u128) < expected {
            return Err(FrameError::BufferTooSmall { have: len, expected });
        }
    }
    let mut row: u32 = 0;
    assert(row * row_bytes == 0) by (nonlinear_arith)
        requires
            row == 0,
    ;
    while row < height
        invariant
            row <= height,
            row_bytes == 3 * width,
            stride >= row_bytes,
            len == data@.len(),
            stride == row_bytes ==> len >= 3 * width * height,
            want == packed_rows(data@, stride as int, width as int, height as int),
            rgb@.len() == row * row_bytes,
            forall|r: int| 0 <= r < row ==> #[trigger] (r * stride) + row_bytes <= len,
            forall|k: int| 0 <= k < rgb@.len() ==> rgb@[k] == want[k],
        decreases height - row,
    {
        proof {
            assert(row * stride >= 0) by (nonlinear_arith)
                requires
                    row >= 0,
                    stride >= 0,
            ;
            if stride == row_bytes {
                assert(row * stride + row_bytes <= 3 * width * height) by (nonlinear_arith)
                    requires
                        row < height,
                        stride == 3 * width,
                        row_bytes == 3 * width,
                ;
            }
        }
        assert(row * stride <= 0xffff_ffff * usize::MAX) by (nonlinear_arith)
            requires
                row <= 0xffff_ffff,
                stride <= usize::MAX,
        ;
        let start: u128 = row as u128 * stride as u128;
        let end: u128 = start + row_bytes as u128;
        if end > len as u128 {
            return Err(FrameError::RowOutOfBounds { row, stride, have: len });
        }
        let from: usize = start as usize;
        let mut k: usize = 0;
        let ghost before = rgb@;
        while k < row_bytes
            invariant
                k <= row_bytes,
                row < height,
                row_bytes == 3 * width,
                len == data@.len(),
                from == row * stride,
                from + row_bytes <= len,
                before.len() == row * row_bytes,
                rgb@.len() == before.len() + k,
                forall|q: int| 0 <= q < before.len() ==> rgb@[q] == before[q],
                forall|q: int|
                    before.len() <= q < rgb@.len() ==> #[trigger] rgb@[q] == data@[from + q
                        - before.len()],
            decreases row_bytes - k,
        {
            rgb.push(data[from + k]);
            k += 1;
        }
        proof {
            assert((row + 1) * row_bytes == row * row_bytes + row_bytes) by (nonlinear_arith);
            assert((row + 1) * row_bytes <= height * row_bytes) by (nonlinear_arith)
                requires
                    row + 1 <= height,
                    row_bytes >= 0,
            ;
            assert(height * row_bytes == 3 * width * height) by (nonlinear_arith)
                requires
                    row_bytes == 3 * width,
            ;
            assert forall|q: int| 0 <= q < rgb@.len() implies rgb@[q] == want[q] by {
                if q >= before.len() {
                    let c = q - before.len();
                    vstd::arithmetic::div_mod::lemma_fundamental_div_mod_converse(
                        q,
                        row_bytes as int,
                        row as int,
                        c,
                    );
                }
            }
        }
        row += 1;
    }
    proof {
        assert(height * row_bytes == 3 * width * height) by (nonlinear_arith)
            requires
                row_bytes == 3 * width,
        ;
        assert(rgb@ =~= want);
        if stride != row_bytes {
            assert forall|r: int| 0 <= r < height implies #[trigger] (r * stride) + 3 * width
                <= len by {}
        }
    }
    Ok(rgb)
}

} // verus!
