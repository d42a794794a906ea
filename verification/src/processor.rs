//! The extraction run: its plan, the engines it uses, the reading of one
//! region of one frame, the values remembered from frame to frame, and the
//! table of measurements.

use crate::config::{Keyframe, Region, RegionConfig, RegionExpectation};
use crate::number::{parse_reading, reading_micros};
use crate::ocr::oar::{ColorMode, OarRecognizer};
use crate::ocr::tesseract::{Preprocess, TesseractRecognizer};
use crate::ocr::{
    is_eligible, is_empty_reading, is_reading_of, read_region, wants_number, OcrResult, Reading,
    Recognizer, CONFIDENCE_ONE,
};
use crate::config::{region_views, regions_at};
use crate::video::{frame_at, frame_number_at, time_of_frame, timestamp_of, FrameRate};
use vstd::prelude::*;
use vstd::string::StringExecFns;

verus! {

/// The confidence at which the priority engines answer alone unless the
/// caller says otherwise: 0.9.
pub fn default_oar_threshold() -> (threshold: u32)
    ensures
        threshold == 900_000,
{
    900_000
}

/// What the caller asks of an extraction run.
#[derive(Debug)]
pub struct ExtractParams {
    pub video_path: String,
    pub config: RegionConfig,
    pub fps_sample: u32,
    pub preprocess: bool,
    pub filter_numeric: bool,
    pub languages: Vec<String>,
    pub use_gpu: bool,
    pub backend: String,
    /// Confidence threshold in millionths: where the best result of the
    /// priority engines is at or above it, the fallback engines are skipped.
    pub oar_confidence_threshold: u32,
}

/// One reading of one region in one frame.
#[derive(Debug, Clone)]
pub struct Measurement {
    /// In microseconds.
    pub timestamp: i64,
    pub frame_number: u64,
    pub region_name: String,
    pub value: String,
    /// In millionths.
    pub confidence: u32,
    pub raw_text: String,
    pub source: String,
}

/// Per-region result reported inside each frame progress event.
#[derive(Debug, Clone)]
pub struct RegionProgress {
    pub region_name: String,
    pub value: String,
    /// In millionths.
    pub confidence: u32,
    pub ocr_preview: String,
    pub source: String,
}

/// One event per frame, with all regions of the frame.
#[derive(Debug, Clone)]
pub struct ExtractProgress {
    pub frame: u64,
    pub total: u64,
    /// In microseconds.
    pub timestamp: i64,
    pub elapsed_frames: u64,
    pub regions: Vec<RegionProgress>,
}

/// What an extraction run returns.
#[derive(Debug)]
pub struct ExtractResult {
    pub measurements: Vec<Measurement>,
    pub csv: String,
}

/// The character of the digit `d`.
pub open spec fn digit_char(d: int) -> char {
    ((0x30 + d) as u8) as char
}

/// `n` in base ten, without leading zeros.
pub open spec fn decimal(n: nat) -> Seq<char>
    decreases n,
{
    if n < 10 {
        seq![digit_char(n as int)]
    } else {
        decimal(n / 10).push(digit_char((n % 10) as int))
    }
}

/// The last `places` digits of `n` in base ten, with leading zeros.
pub open spec fn padded_decimal(n: nat, places: nat) -> Seq<char>
    decreases places,
{
    if places == 0 {
        Seq::empty()
    } else {
        padded_decimal(n / 10, (places - 1) as nat).push(digit_char((n % 10) as int))
    }
}

/// The digits of the fraction `frac / 10^places`, without trailing zeros.
pub open spec fn fraction_text(frac: nat, places: nat) -> Seq<char>
    decreases places,
{
    if places == 0 || frac == 0 {
        Seq::empty()
    } else if frac % 10 == 0 {
        fraction_text(frac / 10, (places - 1) as nat)
    } else {
        padded_decimal(frac, places)
    }
}

/// A time in microseconds, written in seconds: the whole seconds, and
/// after a decimal point the fraction without trailing zeros where it is
/// not zero.
pub open spec fn seconds_text(micros: int) -> Seq<char> {
    let magnitude = if micros < 0 {
        (-micros) as nat
    } else {
        micros as nat
    };
    let sign = if micros < 0 {
        seq!['-']
    } else {
        Seq::<char>::empty()
    };
    let whole = decimal(magnitude / 1_000_000);
    if magnitude % 1_000_000 == 0 {
        sign + whole
    } else {
        sign + whole + seq!['.'] + fraction_text(magnitude % 1_000_000, 6)
    }
}

/// A confidence in millionths, written with four decimal places, the fifth
/// rounded half up.
pub open spec fn confidence_text(confidence: int) -> Seq<char> {
    let rounded = ((confidence + 50) / 100) as nat;
    decimal(rounded / 10_000) + seq!['.'] + padded_decimal(rounded % 10_000, 4)
}

/// Appends `n` in base ten.
fn push_decimal(out: &mut String, n: u64)
    ensures
        final(out)@ == old(out)@ + decimal(n as nat),
    decreases n,
{
    if n >= 10 {
        push_decimal(out, n / 10);
    }
    let d: u8 = (n % 10) as u8;
    let c: char = (0x30u8 + d) as char;
    out.push(c);
    proof {
        if n >= 10 {
            assert((old(out)@ + decimal((n / 10) as nat)).push(c) =~= old(out)@ + decimal(
                n as nat,
            ));
        } else {
            assert(old(out)@.push(c) =~= old(out)@ + decimal(n as nat));
        }
    }
}

/// Appends the last `places` digits of `n`, with leading zeros.
fn push_padded(out: &mut String, n: u64, places: u32)
    ensures
        final(out)@ == old(out)@ + padded_decimal(n as nat, places as nat),
    decreases places,
{
    if places == 0 {
        assert(old(out)@ =~= old(out)@ + padded_decimal(n as nat, 0));
        return ;
    }
    push_padded(out, n / 10, places - 1);
    let d: u8 = (n % 10) as u8;
    let c: char = (0x30u8 + d) as char;
    out.push(c);
    assert((old(out)@ + padded_decimal((n / 10) as nat, (places - 1) as nat)).push(c) =~= old(
        out,
    )@ + padded_decimal(n as nat, places as nat));
}

/// Writes a time in microseconds as seconds.
pub fn format_seconds(micros: i64) -> (text: String)
    ensures
        text@ == seconds_text(micros as int),
{
    let mut text = String::new();
    let magnitude: u64 = if micros < 0 {
        text.push('-');
        (-(micros as i128)) as u64
    } else {
        micros as u64
    };
    let ghost sign = text@;
    assert(sign =~= if micros < 0 {
        seq!['-']
    } else {
        Seq::<char>::empty()
    });
    push_decimal(&mut text, magnitude / 1_000_000);
    let mut frac: u64 = magnitude % 1_000_000;
    if frac != 0 {
        text.push('.');
        let mut places: u32 = 6;
        while frac % 10 == 0
            invariant
                0 < frac,
                places <= 6,
                frac < 1_000_000,
                fraction_text(frac as nat, places as nat) == fraction_text(
                    (magnitude % 1_000_000) as nat,
                    6,
                ),
                places == 0 ==> frac == 0,
                places == 1 ==> frac < 10,
                places == 2 ==> frac < 100,
                places == 3 ==> frac < 1_000,
                places == 4 ==> frac < 10_000,
                places == 5 ==> frac < 100_000,
            decreases frac,
        {
            frac = frac / 10;
            places = places - 1;
        }
        push_padded(&mut text, frac, places);
        assert(text@ =~= sign + decimal((magnitude / 1_000_000) as nat) + seq!['.']
            + fraction_text((magnitude % 1_000_000) as nat, 6));
    }
    text
}

/// Writes a confidence in millionths with four decimal places.
pub fn format_confidence(confidence: u32) -> (text: String)
    ensures
        text@ == confidence_text(confidence as int),
{
    let rounded: u64 = (confidence as u64 + 50) / 100;
    let mut text = String::new();
    push_decimal(&mut text, rounded / 10_000);
    text.push('.');
    push_padded(&mut text, rounded % 10_000, 4);
    assert(text@ =~= decimal((rounded / 10_000) as nat) + seq!['.'] + padded_decimal(
        (rounded % 10_000) as nat,
        4,
    ));
    text
}

/// The first line of the table.
pub open spec fn csv_header() -> Seq<char> {
    "timestamp,frame_number,region_name,value,confidence,raw_text,source\n"@
}

/// The line of the table for one measurement.
pub open spec fn csv_line(m: Measurement) -> Seq<char> {
    seconds_text(m.timestamp as int) + seq![','] + decimal(m.frame_number as nat) + seq![',']
        + m.region_name@ + seq![','] + m.value@ + seq![','] + confidence_text(m.confidence as int)
        + seq![','] + m.raw_text@ + seq![','] + m.source@ + seq!['\n']
}

/// The lines of the first `n` measurements.
pub open spec fn csv_lines(measurements: Seq<Measurement>, n: int) -> Seq<char>
    decreases n,
{
    if n <= 0 {
        Seq::empty()
    } else {
        csv_lines(measurements, n - 1) + csv_line(measurements[n - 1])
    }
}

/// The table of all measurements.
pub open spec fn csv_text(measurements: Seq<Measurement>) -> Seq<char> {
    csv_header() + csv_lines(measurements, measurements.len() as int)
}

/// Appends the line of one measurement.
fn push_line(csv: &mut String, m: &Measurement)
    ensures
        final(csv)@ == old(csv)@ + csv_line(*m),
{
    let ts = format_seconds(m.timestamp);
    csv.append(ts.as_str());
    csv.push(',');
    push_decimal(csv, m.frame_number);
    csv.push(',');
    csv.append(m.region_name.as_str());
    csv.push(',');
    csv.append(m.value.as_str());
    csv.push(',');
    let conf = format_confidence(m.confidence);
    csv.append(conf.as_str());
    csv.push(',');
    csv.append(m.raw_text.as_str());
    csv.push(',');
    csv.append(m.source.as_str());
    csv.push('\n');
    assert(csv@ =~= old(csv)@ + csv_line(*m));
}

/// Builds the table of measurements: a header, then one line per
/// measurement with the timestamp in seconds, the frame number, the name of
/// the region, the value, the confidence with four decimal places, the raw
/// text and the name of the engine.
pub fn build_csv(measurements: &[Measurement]) -> (csv: String)
    ensures
        csv@ == csv_text(measurements@),
{
    let mut csv = "timestamp,frame_number,region_name,value,confidence,raw_text,source\n".to_owned();
    let mut i: usize = 0;
    assert(csv@ =~= csv_header() + csv_lines(measurements@, 0));
    while i < measurements.len()
        invariant
            i <= measurements.len(),
            csv@ == csv_header() + csv_lines(measurements@, i as int),
        decreases measurements.len() - i,
    {
        push_line(&mut csv, &measurements[i]);
        assert(csv@ =~= csv_header() + csv_lines(measurements@, i + 1));
        i += 1;
    }
    csv
}

/// Why an extraction run cannot start.
#[derive(Debug, Clone, Copy, PartialEq, Eq)]
pub enum ExtractError {
    /// At least two keyframes are required to run extraction.
    TooFewKeyframes,
}

/// The frames that an extraction run visits.
#[derive(Debug, Clone, Copy)]
pub struct ExtractPlan {
    pub first_frame: u64,
    pub last_frame: u64,
    /// The distance between two visited frames; at least 1.
    pub fps_sample: u64,
    pub total_steps: u64,
    /// The threshold of the fast path in millionths; at most `CONFIDENCE_ONE`.
    pub threshold: u32,
}

/// `t` is the time of the earliest keyframe.
pub open spec fn is_earliest(kfs: Seq<Keyframe>, t: int) -> bool {
    &&& exists|i: int| 0 <= i < kfs.len() && #[trigger] kfs[i].timestamp == t
    &&& forall|i: int| 0 <= i < kfs.len() ==> t <= #[trigger] kfs[i].timestamp
}

/// `t` is the time of the latest keyframe.
pub open spec fn is_latest(kfs: Seq<Keyframe>, t: int) -> bool {
    &&& exists|i: int| 0 <= i < kfs.len() && #[trigger] kfs[i].timestamp == t
    &&& forall|i: int| 0 <= i < kfs.len() ==> t >= #[trigger] kfs[i].timestamp
}

/// The times of the earliest and of the latest keyframe.
pub fn time_span(kfs: &Vec<Keyframe>) -> (span: (i64, i64))
    requires
        kfs@.len() > 0,
    ensures
        is_earliest(kfs@, span.0 as int),
        is_latest(kfs@, span.1 as int),
{
    let mut lo = kfs[0].timestamp;
    let mut hi = kfs[0].timestamp;
    let ghost mut at_lo: int = 0;
    let ghost mut at_hi: int = 0;
    let mut i: usize = 1;
    while i < kfs.len()
        invariant
            1 <= i <= kfs.len(),
            0 <= at_lo < i,
            0 <= at_hi < i,
            kfs@[at_lo].timestamp == lo,
            kfs@[at_hi].timestamp == hi,
            forall|j: int| 0 <= j < i ==> lo <= #[trigger] kfs@[j].timestamp,
            forall|j: int| 0 <= j < i ==> hi >= #[trigger] kfs@[j].timestamp,
        decreases kfs.len() - i,
    {
        let t = kfs[i].timestamp;
        if t < lo {
            lo = t;
            proof {
                at_lo = i as int;
            }
        }
        if t > hi {
            hi = t;
            proof {
                at_hi = i as int;
            }
        }
        i += 1;
    }
    (lo, hi)
}

/// The number of frames visited from `first` to `last` in steps of `step`,
/// held to the largest `u64`.
pub open spec fn steps_between(first: int, last: int, step: int) -> int {
    let distance = if last < first {
        0
    } else {
        last - first
    };
    if distance / step + 1 > u64::MAX {
        u64::MAX as int
    } else {
        distance / step + 1
    }
}

/// Plans an extraction run: it visits the frames from that of the earliest
/// keyframe to that of the latest, every `fps_sample`-th of them (every
/// frame where `fps_sample` is 0). The threshold of the fast path is held
/// to `CONFIDENCE_ONE`. A configuration of fewer than two keyframes is
/// refused.
pub fn plan_extraction(params: &ExtractParams, fps: FrameRate) -> (plan: Result<
    ExtractPlan,
    ExtractError,
>)
    requires
        fps.wf(),
    ensures
        plan is Err <==> params.config.keyframes@.len() < 2,
        plan matches Ok(p) ==> {
            &&& exists|t: int| #[trigger]
                is_earliest(params.config.keyframes@, t) && p.first_frame == frame_at(t, fps)
            &&& exists|t: int| #[trigger]
                is_latest(params.config.keyframes@, t) && p.last_frame == frame_at(t, fps)
            &&& p.fps_sample == if params.fps_sample == 0 {
                1
            } else {
                params.fps_sample as int
            }
            &&& p.total_steps == steps_between(
                p.first_frame as int,
                p.last_frame as int,
                p.fps_sample as int,
            )
            &&& p.threshold == if params.oar_confidence_threshold > CONFIDENCE_ONE {
                CONFIDENCE_ONE
            } else {
                params.oar_confidence_threshold
            }
        },
{
    if params.config.keyframes.len() < 2 {
        return Err(ExtractError::TooFewKeyframes);
    }
    let (first_ts, last_ts) = time_span(&params.config.keyframes);
    let fps_sample: u64 = if params.fps_sample == 0 {
        1
    } else {
        params.fps_sample as u64
    };
    let first_frame = frame_number_at(first_ts, fps);
    let last_frame = frame_number_at(last_ts, fps);
    let distance: u64 = if last_frame < first_frame {
        0
    } else {
        last_frame - first_frame
    };
    let whole: u64 = distance / fps_sample;
    let total_steps: u64 = if whole == u64::MAX {
        u64::MAX
    } else {
        whole + 1
    };
    let threshold: u32 = if params.oar_confidence_threshold > CONFIDENCE_ONE {
        CONFIDENCE_ONE
    } else {
        params.oar_confidence_threshold
    };
    Ok(ExtractPlan { first_frame, last_frame, fps_sample, total_steps, threshold })
}

/// The frame that is visited after `frame`, or `None` where `frame` was
/// the last one.
pub fn next_frame(plan: &ExtractPlan, frame: u64) -> (next: Option<u64>)
    ensures
        next is Some <==> frame + plan.fps_sample <= plan.last_frame,
        next matches Some(f) ==> f == frame + plan.fps_sample,
{
    if frame <= plan.last_frame && plan.fps_sample <= plan.last_frame - frame {
        Some(frame + plan.fps_sample)
    } else {
        None
    }
}

/// The priority engines: the neural recogniser on the crop as it is and
/// on its grayscale, where its model is ready; none where it is not.
pub fn priority_engines(model_ready: bool) -> (engines: Vec<OarRecognizer>)
    ensures
        !model_ready ==> engines@.len() == 0,
        model_ready ==> engines@.len() == 2 && engines@[0].color_mode == ColorMode::Rgb
            && engines@[1].color_mode == ColorMode::Grayscale,
{
    let mut engines: Vec<OarRecognizer> = Vec::new();
    if model_ready {
        engines.push(OarRecognizer { color_mode: ColorMode::Rgb });
        engines.push(OarRecognizer { color_mode: ColorMode::Grayscale });
    }
    engines
}

/// The modes of the fallback engines, in order: with preprocessing the
/// full pipeline on the luminance, binarised and not, and on each colour
/// channel; without it the luminance alone; in both cases the RGB bytes last.
pub open spec fn fallback_modes(preprocess: bool) -> Seq<Preprocess> {
    if preprocess {
        seq![
            Preprocess::Binary,
            Preprocess::Gray,
            Preprocess::ChannelR,
            Preprocess::ChannelG,
            Preprocess::ChannelB,
            Preprocess::RawRgb,
        ]
    } else {
        seq![Preprocess::RawGray, Preprocess::RawRgb]
    }
}

/// One fallback engine.
fn fallback_engine(languages: &Vec<String>, mode: Preprocess, tessdata_dir: &Option<String>) -> (engine:
    TesseractRecognizer)
    ensures
        engine.preprocess == mode,
        engine.languages@ == languages@,
        engine.tessdata_dir == *tessdata_dir,
{
    let copy = languages.clone();
    assert(copy@ =~= languages@);
    let dir = match tessdata_dir {
        Some(d) => Some(d.clone()),
        None => None,
    };
    TesseractRecognizer { languages: copy, preprocess: mode, tessdata_dir: dir }
}

/// The fallback engines: one configuration of the classical recogniser
/// for each of `fallback_modes`, all with the same languages and data
/// directory.
pub fn fallback_engines(languages: &Vec<String>, preprocess: bool, tessdata_dir: &Option<String>) -> (engines:
    Vec<TesseractRecognizer>)
    ensures
        engines@.len() == fallback_modes(preprocess).len(),
        forall|i: int|
            0 <= i < engines@.len() ==> {
                &&& (#[trigger] engines@[i]).preprocess == fallback_modes(preprocess)[i]
                &&& engines@[i].languages@ == languages@
                &&& engines@[i].tessdata_dir == *tessdata_dir
            },
{
    let mut engines: Vec<TesseractRecognizer> = Vec::new();
    if preprocess {
        engines.push(fallback_engine(languages, Preprocess::Binary, tessdata_dir));
        engines.push(fallback_engine(languages, Preprocess::Gray, tessdata_dir));
        engines.push(fallback_engine(languages, Preprocess::ChannelR, tessdata_dir));
        engines.push(fallback_engine(languages, Preprocess::ChannelG, tessdata_dir));
        engines.push(fallback_engine(languages, Preprocess::ChannelB, tessdata_dir));
    } else {
        engines.push(fallback_engine(languages, Preprocess::RawGray, tessdata_dir));
    }
    engines.push(fallback_engine(languages, Preprocess::RawRgb, tessdata_dir));
    engines
}

/// The last accepted value of one region, in millionths.
#[derive(Debug, Clone)]
pub struct PreviousValue {
    pub name: String,
    pub value: i64,
}

/// The last accepted value of each region, by the name of the region.
#[derive(Debug, Clone)]
pub struct PreviousValues {
    pub entries: Vec<PreviousValue>,
}

/// The value of the first entry named `name`.
pub open spec fn lookup(entries: Seq<PreviousValue>, name: Seq<char>) -> Option<i64>
    decreases entries.len(),
{
    if entries.len() == 0 {
        None
    } else if entries.first().name@ == name {
        Some(entries.first().value)
    } else {
        lookup(entries.drop_first(), name)
    }
}

proof fn lemma_lookup_after_update(entries: Seq<PreviousValue>, i: int, e: PreviousValue, n: Seq<char>)
    requires
        0 <= i < entries.len(),
        entries[i].name@ == e.name@,
        forall|k: int| 0 <= k < i ==> (#[trigger] entries[k]).name@ != e.name@,
    ensures
        lookup(entries.update(i, e), n) == if n == e.name@ {
            Some(e.value)
        } else {
            lookup(entries, n)
        },
    decreases i,
{
    let after = entries.update(i, e);
    if i == 0 {
        assert(after.drop_first() =~= entries.drop_first());
    } else {
        assert(after.first() == entries.first());
        assert(entries[0].name@ != e.name@);
        assert(after.drop_first() =~= entries.drop_first().update(i - 1, e));
        assert forall|k: int| 0 <= k < i - 1 implies (#[trigger] entries.drop_first()[k]).name@
            != e.name@ by {
            assert(entries.drop_first()[k] == entries[k + 1]);
        }
        lemma_lookup_after_update(entries.drop_first(), i - 1, e, n);
    }
}

proof fn lemma_lookup_after_push(entries: Seq<PreviousValue>, e: PreviousValue, n: Seq<char>)
    requires
        forall|k: int| 0 <= k < entries.len() ==> (#[trigger] entries[k]).name@ != e.name@,
    ensures
        lookup(entries.push(e), n) == if n == e.name@ {
            Some(e.value)
        } else {
            lookup(entries, n)
        },
    decreases entries.len(),
{
    let after = entries.push(e);
    if entries.len() == 0 {
        assert(after.drop_first() =~= Seq::<PreviousValue>::empty());
    } else {
        assert(after.first() == entries.first());
        assert(entries[0].name@ != e.name@);
        assert(after.drop_first() =~= entries.drop_first().push(e));
        assert forall|k: int| 0 <= k < entries.drop_first().len() implies (
        #[trigger] entries.drop_first()[k]).name@ != e.name@ by {
            assert(entries.drop_first()[k] == entries[k + 1]);
        }
        lemma_lookup_after_push(entries.drop_first(), e, n);
    }
}

impl View for PreviousValues {
    type V = Map<Seq<char>, i64>;

    /// The values by name.
    open spec fn view(&self) -> Map<Seq<char>, i64> {
        Map::new(
            |n: Seq<char>| lookup(self.entries@, n) is Some,
            |n: Seq<char>| lookup(self.entries@, n)->0,
        )
    }
}

impl PreviousValues {
    /// No value is remembered.
    pub fn new() -> (prev: Self)
        ensures
            prev@ == Map::<Seq<char>, i64>::empty(),
    {
        let prev = PreviousValues { entries: Vec::new() };
        assert(prev@ =~= Map::<Seq<char>, i64>::empty());
        prev
    }

    /// The value remembered for the region named `name`.
    pub fn get(&self, name: &String) -> (value: Option<i64>)
        ensures
            match value {
                Some(v) => self@.contains_key(name@) && self@[name@] == v,
                None => !self@.contains_key(name@),
            },
    {
        let mut i: usize = 0;
        assert(self.entries@.skip(0) == self.entries@);
        while i < self.entries.len()
            invariant
                i <= self.entries.len(),
                lookup(self.entries@, name@) == lookup(self.entries@.skip(i as int), name@),
            decreases self.entries.len() - i,
        {
            proof {
                assert(self.entries@.skip(i as int).drop_first() == self.entries@.skip(i + 1));
            }
            if self.entries[i].name == *name {
                return Some(self.entries[i].value);
            }
            i += 1;
        }
        None
    }

    /// Remembers `value` for the region named `name`, in place of what was
    /// remembered for it.
    pub fn insert(&mut self, name: String, value: i64)
        ensures
            final(self)@ == old(self)@.insert(name@, value),
    {
        let ghost before = self.entries@;
        let ghost e = PreviousValue { name, value };
        let mut i: usize = 0;
        while i < self.entries.len()
            invariant
                i <= self.entries.len(),
                self.entries@ == before,
                before == old(self).entries@,
                forall|k: int| 0 <= k < i ==> (#[trigger] before[k]).name@ != name@,
            decreases self.entries.len() - i,
        {
            if self.entries[i].name == name {
                let ghost e = PreviousValue { name, value };
                self.entries.set(i, PreviousValue { name, value });
                proof {
                    assert(self.entries@ =~= before.update(i as int, e));
                    assert forall|n: Seq<char>| lookup(self.entries@, n) == (if n == e.name@ {
                        Some(value)
                    } else {
                        lookup(before, n)
                    }) by {
                        lemma_lookup_after_update(before, i as int, e, n);
                    }
                    assert(self@ =~= old(self)@.insert(e.name@, value));
                }
                return ;
            }
            i += 1;
        }
        self.entries.push(PreviousValue { name, value });
        proof {
            assert(self.entries@ =~= before.push(e));
            assert forall|n: Seq<char>| lookup(self.entries@, n) == (if n == e.name@ {
                Some(value)
            } else {
                lookup(before, n)
            }) by {
                lemma_lookup_after_push(before, e, n);
            }
            assert(self@ =~= old(self)@.insert(e.name@, value));
        }
    }
}

/// The values remembered after the first `n` measurements: the value of a
/// measurement replaces what was remembered for its region where it is a
/// number.
pub open spec fn remembered(prev: Map<Seq<char>, i64>, measurements: Seq<Measurement>, n: int) -> Map<
    Seq<char>,
    i64,
>
    decreases n,
{
    if n <= 0 {
        prev
    } else {
        let before = remembered(prev, measurements, n - 1);
        match reading_micros(measurements[n - 1].value@) {
            Some(v) => before.insert(measurements[n - 1].region_name@, v as i64),
            None => before,
        }
    }
}

/// Remembers the numeric values of the measurements of one frame. It is
/// called when all regions of the frame are read, so that every region of
/// a frame is scored against the values of the frame before.
pub fn remember_values(prev: &mut PreviousValues, measurements: &[Measurement])
    ensures
        final(prev)@ == remembered(old(prev)@, measurements@, measurements@.len() as int),
{
    let mut i: usize = 0;
    while i < measurements.len()
        invariant
            i <= measurements.len(),
            prev@ == remembered(old(prev)@, measurements@, i as int),
        decreases measurements.len() - i,
    {
        match parse_reading(measurements[i].value.as_str()) {
            Some(v) => {
                prev.insert(measurements[i].region_name.clone(), v);
            },
            None => {},
        }
        i += 1;
    }
}

/// A coordinate of a region as a frame takes it: not below zero.
pub open spec fn clamped_at_zero(v: i32) -> u32 {
    if v < 0 {
        0
    } else {
        v as u32
    }
}

/// The reading that a measurement and its progress entry hold.
pub open spec fn reading_in(m: Measurement, p: RegionProgress) -> Reading {
    (m.value, m.confidence, m.raw_text, p.ocr_preview, m.source)
}

/// Reads one region of one frame and files the reading under the frame
/// and the region, once as a measurement and once for the progress event.
/// Coordinates of the region below zero count as zero.
pub fn measure_region<P: Recognizer, F: Recognizer>(
    region: &Region,
    frame_bytes: &[u8],
    frame_width: u32,
    frame_height: u32,
    timestamp: i64,
    frame_number: u64,
    priority: &[P],
    fallback: &[F],
    fast_threshold: u32,
    expectation: Option<&RegionExpectation>,
    prev_value: Option<i64>,
) -> (out: (Measurement, RegionProgress))
    requires
        frame_bytes@.len() >= 3 * (frame_width as int) * (frame_height as int),
    ensures
        out.0.timestamp == timestamp,
        out.0.frame_number == frame_number,
        out.0.region_name@ == region.name@,
        out.1.region_name@ == region.name@,
        out.1.value@ == out.0.value@,
        out.1.confidence == out.0.confidence,
        out.1.source@ == out.0.source@,
        crate::ocr::clamps_to_nothing(
            frame_width,
            frame_height,
            clamped_at_zero(region.x),
            clamped_at_zero(region.y),
            clamped_at_zero(region.width),
            clamped_at_zero(region.height),
        ) ==> is_empty_reading(reading_in(out.0, out.1)),
        is_empty_reading(reading_in(out.0, out.1)) || exists|c: OcrResult|
            is_eligible(c, expectation, prev_value) && is_reading_of(
                reading_in(out.0, out.1),
                c,
                wants_number(expectation),
            ),
{
    let x: u32 = if region.x < 0 {
        0
    } else {
        region.x as u32
    };
    let y: u32 = if region.y < 0 {
        0
    } else {
        region.y as u32
    };
    let w: u32 = if region.width < 0 {
        0
    } else {
        region.width as u32
    };
    let h: u32 = if region.height < 0 {
        0
    } else {
        region.height as u32
    };
    let (value, confidence, raw_text, ocr_preview, source) = read_region(
        frame_bytes,
        frame_width,
        frame_height,
        x,
        y,
        w,
        h,
        priority,
        fallback,
        fast_threshold,
        expectation,
        prev_value,
    );
    let m = Measurement {
        timestamp,
        frame_number,
        region_name: region.name.clone(),
        value: value.clone(),
        confidence,
        raw_text,
        source: source.clone(),
    };
    let p = RegionProgress {
        region_name: region.name.clone(),
        value,
        confidence,
        ocr_preview,
        source,
    };
    proof {
        let read = (p.value, confidence, m.raw_text, p.ocr_preview, p.source);
        let filed = reading_in(m, p);
        assert(is_empty_reading(read) ==> is_empty_reading(filed));
        assert forall|c: OcrResult|
            is_reading_of(read, c, wants_number(expectation)) implies is_reading_of(
            filed,
            c,
            wants_number(expectation),
        ) by {}
    }
    (m, p)
}

/// What an extraction run does next.
#[derive(Debug)]
pub enum FrameTask {
    /// Every frame of the plan is visited, or the run is cancelled.
    Finished,
    /// No region is valid at the frame: nothing is decoded.
    Skipped { frame_number: u64, timestamp: i64 },
    /// The frame is to be decoded and its regions are to be read.
    Read { frame_number: u64, timestamp: i64, elapsed_frames: u64, regions: Vec<Region> },
}

/// An extraction run between two frames: the frame that is visited next,
/// how many frames are behind it, the values remembered for the regions,
/// and the measurements made so far.
#[derive(Debug)]
pub struct ExtractRun {
    pub plan: ExtractPlan,
    pub fps: FrameRate,
    pub next: Option<u64>,
    pub elapsed: u64,
    pub prev_values: PreviousValues,
    pub measurements: Vec<Measurement>,
}

/// `elapsed` counted up by one, held to the largest `u64`.
pub open spec fn one_more(elapsed: u64) -> u64 {
    if elapsed == u64::MAX {
        elapsed
    } else {
        (elapsed + 1) as u64
    }
}

impl ExtractRun {
    /// A run at the first frame of its plan, with nothing behind it.
    pub fn start(plan: ExtractPlan, fps: FrameRate) -> (run: Self)
        ensures
            run.plan == plan,
            run.fps == fps,
            run.next == if plan.first_frame <= plan.last_frame {
                Some(plan.first_frame)
            } else {
                None
            },
            run.elapsed == 0,
            run.prev_values@ == Map::<Seq<char>, i64>::empty(),
            run.measurements@.len() == 0,
    {
        let next = if plan.first_frame <= plan.last_frame {
            Some(plan.first_frame)
        } else {
            None
        };
        ExtractRun {
            plan,
            fps,
            next,
            elapsed: 0,
            prev_values: PreviousValues::new(),
            measurements: Vec::new(),
        }
    }

    /// Takes the next frame of the plan. A cancelled run and a run without
    /// a next frame are finished and stay as they are. Else the run moves on
    /// by one frame, and the task names the frame with its time; where
    /// regions are valid at that time the task holds them, with the number of
    /// frames that were behind the run, and the frame is to be read.
    pub fn advance(&mut self, config: &RegionConfig, cancelled: bool) -> (task: FrameTask)
        requires
            old(self).fps.wf(),
        ensures
            final(self).plan == old(self).plan,
            final(self).fps == old(self).fps,
            final(self).prev_values == old(self).prev_values,
            final(self).measurements == old(self).measurements,
            cancelled || old(self).next is None ==> task is Finished && final(self).next == old(
                self,
            ).next && final(self).elapsed == old(self).elapsed,
            !cancelled && old(self).next is Some ==> {
                let frame = old(self).next->0;
                let ts = time_of_frame(frame as int, old(self).fps);
                &&& final(self).elapsed == one_more(old(self).elapsed)
                &&& final(self).next is Some <==> frame + old(self).plan.fps_sample <= old(
                    self,
                ).plan.last_frame
                &&& final(self).next matches Some(f) ==> f == frame + old(self).plan.fps_sample
                &&& match task {
                    FrameTask::Finished => false,
                    FrameTask::Skipped { frame_number, timestamp } => frame_number == frame
                        && timestamp == ts && regions_at(config.keyframes@, ts).len() == 0,
                    FrameTask::Read { frame_number, timestamp, elapsed_frames, regions } =>
                        frame_number == frame && timestamp == ts && elapsed_frames == old(
                            self,
                        ).elapsed && regions@.len() > 0 && region_views(regions@) == regions_at(
                            config.keyframes@,
                            ts,
                        ),
                }
            },
    {
        let frame = match self.next {
            Some(f) => f,
            None => {
                return FrameTask::Finished;
            },
        };
        if cancelled {
            return FrameTask::Finished;
        }
        let behind = self.elapsed;
        self.next = next_frame(&self.plan, frame);
        if self.elapsed < u64::MAX {
            self.elapsed = self.elapsed + 1;
        }
        let timestamp = timestamp_of(frame, self.fps);
        let regions = config.get_regions_at(timestamp);
        if regions.len() == 0 {
            FrameTask::Skipped { frame_number: frame, timestamp }
        } else {
            FrameTask::Read { frame_number: frame, timestamp, elapsed_frames: behind, regions }
        }
    }

    /// Files the measurements of one frame: they are added to those of the
    /// run in their order, and their numeric values are remembered for the
    /// frames that follow.
    pub fn record(&mut self, of_frame: Vec<Measurement>)
        ensures
            final(self).plan == old(self).plan,
            final(self).fps == old(self).fps,
            final(self).next == old(self).next,
            final(self).elapsed == old(self).elapsed,
            final(self).measurements@ == old(self).measurements@ + of_frame@,
            final(self).prev_values@ == remembered(
                old(self).prev_values@,
                of_frame@,
                of_frame@.len() as int,
            ),
    {
        remember_values(&mut self.prev_values, of_frame.as_slice());
        let mut of_frame = of_frame;
        self.measurements.append(&mut of_frame);
    }

    /// Ends the run: its measurements with their table.
    pub fn finish(self) -> (result: ExtractResult)
        ensures
            result.measurements@ == self.measurements@,
            result.csv@ == csv_text(self.measurements@),
    {
        let csv = build_csv(self.measurements.as_slice());
        ExtractResult { measurements: self.measurements, csv }
    }
}

} // verus!
