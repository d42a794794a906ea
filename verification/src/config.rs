//! Regions, keyframes and the interpolation of region rectangles between
//! keyframes.
//!
//! Timestamps are whole microseconds. Bounds that an expectation puts on a
//! reading are fixed-point values in millionths.

use crate::rounding::{lemma_round_div_between, round_div};
use vstd::prelude::*;

verus! {

/// Per-region content expectations used when recogniser output is scored.
///
/// Every field but `numeric` is optional; an unset field imposes no constraint.
#[derive(Debug, Clone, Copy)]
pub struct RegionExpectation {
    /// Whether the region is expected to contain a parseable number.
    pub numeric: bool,
    /// Minimum acceptable value (inclusive), in millionths.
    pub min: Option<i64>,
    /// Maximum acceptable value (inclusive), in millionths.
    pub max: Option<i64>,
    /// Expected number of digits after the decimal point (0 for an integer).
    pub decimal_places: Option<u32>,
    /// Expected total digit count.
    pub total_digits: Option<u32>,
    /// Maximum allowed absolute change from the previous accepted value, in
    /// millionths.
    pub max_deviation: Option<i64>,
}

impl Default for RegionExpectation {
    fn default() -> (e: Self)
        ensures
            !e.numeric,
            e.min is None,
            e.max is None,
            e.decimal_places is None,
            e.total_digits is None,
            e.max_deviation is None,
    {
        RegionExpectation {
            numeric: false,
            min: None,
            max: None,
            decimal_places: None,
            total_digits: None,
            max_deviation: None,
        }
    }
}

/// A named rectangle that follows one instrument reading on screen.
#[derive(Debug)]
pub struct Region {
    pub name: String,
    pub x: i32,
    pub y: i32,
    pub width: i32,
    pub height: i32,
}

/// A region as contracts speak of it.
pub struct RegionView {
    pub name: Seq<char>,
    pub x: int,
    pub y: int,
    pub width: int,
    pub height: int,
}

impl View for Region {
    type V = RegionView;

    open spec fn view(&self) -> RegionView {
        RegionView {
            name: self.name@,
            x: self.x as int,
            y: self.y as int,
            width: self.width as int,
            height: self.height as int,
        }
    }
}

impl Clone for Region {
    fn clone(&self) -> (r: Self)
        ensures
            r == *self,
    {
        Region {
            name: self.name.clone(),
            x: self.x,
            y: self.y,
            width: self.width,
            height: self.height,
        }
    }
}

/// The views of a list of regions, in order.
pub open spec fn region_views(rs: Seq<Region>) -> Seq<RegionView> {
    rs.map_values(|r: Region| r@)
}

/// A timestamp together with the regions that the user placed at it.
#[derive(Debug)]
pub struct Keyframe {
    /// Microseconds from the start of the video.
    pub timestamp: i64,
    pub regions: Vec<Region>,
}

impl Clone for Keyframe {
    fn clone(&self) -> (k: Self)
        ensures
            k.timestamp == self.timestamp,
            k.regions@ == self.regions@,
    {
        let regions = self.regions.clone();
        assert(regions@ =~= self.regions@);
        Keyframe { timestamp: self.timestamp, regions }
    }
}

/// The point `num / den` of the way from `a` to `b`, rounded to the nearest
/// integer.
pub open spec fn lerp(a: int, b: int, num: int, den: int) -> int
    recommends
        den > 0,
{
    round_div(a * den + (b - a) * num, den)
}

/// An interpolated value lies between its two end values.
pub proof fn lemma_lerp_between(a: int, b: int, num: int, den: int)
    requires
        0 <= num <= den,
        den > 0,
    ensures
        a <= b ==> a <= lerp(a, b, num, den) <= b,
        b <= a ==> b <= lerp(a, b, num, den) <= a,
{
    let n = a * den + (b - a) * num;
    if a <= b {
        assert(a * den <= n <= b * den) by (nonlinear_arith)
            requires
                n == a * den + (b - a) * num,
                0 <= num <= den,
                a <= b,
        ;
        lemma_round_div_between(n, den, a, b);
    }
    if b <= a {
        assert(b * den <= n <= a * den) by (nonlinear_arith)
            requires
                n == a * den + (b - a) * num,
                0 <= num <= den,
                b <= a,
        ;
        lemma_round_div_between(n, den, b, a);
    }
}

/// Interpolates one integer field: `a` at `num == 0`, `b` at `num == den`.
pub fn lerp_i32(a: i32, b: i32, num: u64, den: u64) -> (r: i32)
    requires
        0 < den,
        num <= den,
    ensures
        r == lerp(a as int, b as int, num as int, den as int),
        a <= b ==> a <= r <= b,
        b <= a ==> b <= r <= a,
{
    proof {
        lemma_lerp_between(a as int, b as int, num as int, den as int);
    }
    let ghost n = a as int * den as int + (b as int - a as int) * num as int;
    assert(-0x8000_0000 * 0x1_0000_0000_0000_0000 <= a as int * den as int <= 0x8000_0000
        * 0x1_0000_0000_0000_0000) by (nonlinear_arith)
        requires
            -0x8000_0000 <= a as int <= 0x8000_0000,
            0 <= den as int <= 0x1_0000_0000_0000_0000,
    ;
    assert(-0x1_0000_0000 * 0x1_0000_0000_0000_0000 <= (b as int - a as int) * num as int
        <= 0x1_0000_0000 * 0x1_0000_0000_0000_0000) by (nonlinear_arith)
        requires
            -0x1_0000_0000 <= b as int - a as int <= 0x1_0000_0000,
            0 <= num as int <= 0x1_0000_0000_0000_0000,
    ;
    let from: i128 = a as i128 * den as i128;
    let step: i128 = (b as i128 - a as i128) * num as i128;
    let total: i128 = from + step;
    let twice_den: u128 = 2 * den as u128;
    if total >= 0 {
        let q: u128 = (2 * total as u128 + den as u128) / twice_den;
        q as i32
    } else {
        let q: u128 = (2 * (-total) as u128 + den as u128) / twice_den;
        (-(q as i64)) as i32
    }
}

/// The last region of `rs` that is named `name`.
pub open spec fn last_named(rs: Seq<Region>, name: Seq<char>) -> Option<Region>
    decreases rs.len(),
{
    if rs.len() == 0 {
        None
    } else if rs.last().name@ == name {
        Some(rs.last())
    } else {
        last_named(rs.drop_last(), name)
    }
}

/// The rectangle of `a` moved `num / den` of the way towards that of `b`,
/// under the name of `a`.
pub open spec fn lerp_view(a: RegionView, b: RegionView, num: int, den: int) -> RegionView {
    RegionView {
        name: a.name,
        x: lerp(a.x, b.x, num, den),
        y: lerp(a.y, b.y, num, den),
        width: lerp(a.width, b.width, num, den),
        height: lerp(a.height, b.height, num, den),
    }
}

/// Where the region `ra` of the earlier keyframe stands between two
/// keyframes: moved towards the region of the same name among `b`, or left
/// in place where `b` has none.
pub open spec fn carried_one(ra: Region, b: Seq<Region>, num: int, den: int) -> RegionView {
    match last_named(b, ra.name@) {
        Some(rb) => lerp_view(ra@, rb@, num, den),
        None => ra@,
    }
}

/// The regions of the earlier keyframe `a`, each where it stands between
/// the two keyframes.
pub open spec fn carried(a: Seq<Region>, b: Seq<Region>, num: int, den: int) -> Seq<RegionView> {
    Seq::new(a.len(), |i: int| carried_one(a[i], b, num, den))
}

/// The predicate "no region of `a` has this region's name".
pub open spec fn is_new_in(a: Seq<Region>) -> spec_fn(Region) -> bool {
    |rb: Region| last_named(a, rb.name@) is None
}

/// The regions of the later keyframe `b` that the earlier keyframe `a` does
/// not name, in the order of `b`.
pub open spec fn added(a: Seq<Region>, b: Seq<Region>) -> Seq<RegionView> {
    region_views(b.filter(is_new_in(a)))
}

/// The regions between two keyframes: those of the earlier one, carried
/// towards the later one, followed by those that only the later one has.
pub open spec fn interpolated(a: Seq<Region>, b: Seq<Region>, num: int, den: int) -> Seq<
    RegionView,
> {
    carried(a, b, num, den) + added(a, b)
}

/// The last region of `regions` that is named `name`.
fn find_region<'a>(regions: &'a Vec<Region>, name: &String) -> (r: Option<&'a Region>)
    ensures
        match r {
            Some(found) => last_named(regions@, name@) == Some(*found),
            None => last_named(regions@, name@) is None,
        },
{
    let mut i: usize = regions.len();
    assert(regions@.take(i as int) == regions@);
    while i > 0
        invariant
            i <= regions.len(),
            last_named(regions@, name@) == last_named(regions@.take(i as int), name@),
        decreases i,
    {
        proof {
            assert(regions@.take(i as int).drop_last() == regions@.take(i - 1));
        }
        if regions[i - 1].name == *name {
            return Some(&regions[i - 1]);
        }
        i -= 1;
    }
    None
}

/// Moves the rectangle of `a` towards that of `b`, keeping the name of `a`.
pub fn lerp_region(a: &Region, b: &Region, num: u64, den: u64) -> (r: Region)
    requires
        0 < den,
        num <= den,
    ensures
        r@ == lerp_view(a@, b@, num as int, den as int),
{
    Region {
        name: a.name.clone(),
        x: lerp_i32(a.x, b.x, num, den),
        y: lerp_i32(a.y, b.y, num, den),
        width: lerp_i32(a.width, b.width, num, den),
        height: lerp_i32(a.height, b.height, num, den),
    }
}

/// Interpolates all regions between two keyframes, `num / den` of the way
/// from `a` to `b`. Regions present in both move; regions only in `a` keep
/// their rectangle; regions only in `b` are appended as they are.
pub fn interpolate_keyframes(a: &Keyframe, b: &Keyframe, num: u64, den: u64) -> (out: Vec<Region>)
    requires
        0 < den,
        num <= den,
    ensures
        region_views(out@) == interpolated(a.regions@, b.regions@, num as int, den as int),
{
    let mut out: Vec<Region> = Vec::new();
    let mut i: usize = 0;
    while i < a.regions.len()
        invariant
            0 < den,
            num <= den,
            i <= a.regions.len(),
            out.len() == i,
            forall|k: int|
                0 <= k < i ==> (#[trigger] out@[k])@ == carried_one(
                    a.regions@[k],
                    b.regions@,
                    num as int,
                    den as int,
                ),
        decreases a.regions.len() - i,
    {
        let ra = &a.regions[i];
        let moved = match find_region(&b.regions, &ra.name) {
            Some(rb) => lerp_region(ra, rb, num, den),
            None => ra.clone(),
        };
        out.push(moved);
        i += 1;
    }
    let ghost moved = out@;
    assert(region_views(moved) =~= carried(a.regions@, b.regions@, num as int, den as int));
    let mut j: usize = 0;
    proof {
        reveal(Seq::filter);
        assert(b.regions@.take(0) =~= Seq::<Region>::empty());
    }
    while j < b.regions.len()
        invariant
            j <= b.regions.len(),
            out@ == moved + b.regions@.take(j as int).filter(is_new_in(a.regions@)),
        decreases b.regions.len() - j,
    {
        let rb = &b.regions[j];
        proof {
            reveal(Seq::filter);
            assert(b.regions@.take(j + 1).drop_last() == b.regions@.take(j as int));
        }
        if find_region(&a.regions, &rb.name).is_none() {
            out.push(rb.clone());
            assert(out@ =~= moved + b.regions@.take(j + 1).filter(is_new_in(a.regions@)));
        }
        j += 1;
    }
    proof {
        assert(b.regions@.take(j as int) == b.regions@);
        assert(region_views(out@) =~= region_views(moved) + region_views(
            b.regions@.filter(is_new_in(a.regions@)),
        ));
    }
    out
}

/// The content expectation of the region named `name`.
#[derive(Debug, Clone)]
pub struct NamedExpectation {
    pub name: String,
    pub expectation: RegionExpectation,
}

/// The video, the keyframes that the user marked on it, and what each
/// region is expected to show.
#[derive(Debug, Clone)]
pub struct RegionConfig {
    pub video_path: String,
    pub keyframes: Vec<Keyframe>,
    /// Per-region-name content expectations; the first entry of a name counts.
    pub expectations: Vec<NamedExpectation>,
}

/// How many keyframes at the head of `kfs` lie before `ts`.
pub open spec fn count_before(kfs: Seq<Keyframe>, ts: int) -> nat
    decreases kfs.len(),
{
    if kfs.len() == 0 || kfs.first().timestamp >= ts {
        0
    } else {
        1 + count_before(kfs.drop_first(), ts)
    }
}

/// `count_before` is the index of the first keyframe at or after `ts`.
pub proof fn lemma_count_before_is(kfs: Seq<Keyframe>, ts: int, n: int)
    requires
        0 <= n <= kfs.len(),
        forall|k: int| 0 <= k < n ==> (#[trigger] kfs[k]).timestamp < ts,
        n == kfs.len() || kfs[n].timestamp >= ts,
    ensures
        count_before(kfs, ts) == n,
    decreases n,
{
    if n > 0 {
        let t = kfs.drop_first();
        assert forall|k: int| 0 <= k < n - 1 implies (#[trigger] t[k]).timestamp < ts by {
            assert(t[k] == kfs[k + 1]);
        }
        lemma_count_before_is(t, ts, n - 1);
    }
}

/// The keyframes before `count_before` lie before `ts`; the one at it, if
/// any, does not.
pub proof fn lemma_count_before_bounds(kfs: Seq<Keyframe>, ts: int)
    ensures
        count_before(kfs, ts) <= kfs.len(),
        forall|k: int| 0 <= k < count_before(kfs, ts) ==> (#[trigger] kfs[k]).timestamp < ts,
        count_before(kfs, ts) < kfs.len() ==> kfs[count_before(kfs, ts) as int].timestamp >= ts,
    decreases kfs.len(),
{
    if kfs.len() > 0 && kfs.first().timestamp < ts {
        let t = kfs.drop_first();
        lemma_count_before_bounds(t, ts);
        assert forall|k: int| 0 <= k < count_before(kfs, ts) implies (
        #[trigger] kfs[k]).timestamp < ts by {
            if k > 0 {
                assert(kfs[k] == t[k - 1]);
            }
        }
    }
}

/// The regions that are valid at `ts`. At or before the first keyframe they
/// are those of the first keyframe; at or after the last, those of the last.
/// In between, they are interpolated between the last keyframe that lies
/// before `ts` and the keyframe that follows it.
pub open spec fn regions_at(kfs: Seq<Keyframe>, ts: int) -> Seq<RegionView> {
    if kfs.len() == 0 {
        Seq::empty()
    } else if ts <= kfs.first().timestamp {
        region_views(kfs.first().regions@)
    } else if ts >= kfs.last().timestamp {
        region_views(kfs.last().regions@)
    } else {
        let j = count_before(kfs, ts) as int;
        let a = kfs[j - 1];
        let b = kfs[j];
        interpolated(a.regions@, b.regions@, ts - a.timestamp, b.timestamp - a.timestamp)
    }
}

/// The keyframes are in ascending order of time.
pub open spec fn is_sorted(kfs: Seq<Keyframe>) -> bool {
    forall|i: int, j: int| 0 <= i <= j < kfs.len() ==> kfs[i].timestamp <= kfs[j].timestamp
}

/// The predicate "is at time `t`".
pub open spec fn at_time(t: int) -> spec_fn(Keyframe) -> bool {
    |k: Keyframe| k.timestamp == t
}

/// `out` holds the keyframes of `inp` in ascending order of time, those of
/// one time in the order in which `inp` has them.
pub open spec fn is_stable_sort_of(out: Seq<Keyframe>, inp: Seq<Keyframe>) -> bool {
    &&& is_sorted(out)
    &&& out.len() == inp.len()
    &&& forall|t: int| #[trigger] out.filter(at_time(t)) == inp.filter(at_time(t))
}

impl RegionConfig {
    /// Interpolates region positions at the given timestamp.
    ///
    /// Regions that exist in both surrounding keyframes are interpolated.
    /// Regions that exist only in the earlier keyframe keep that position.
    /// Regions that exist only in the later keyframe appear at their position.
    /// The result is meant for keyframes in ascending order of time: call
    /// `sort_keyframes` once after construction.
    pub fn get_regions_at(&self, ts: i64) -> (out: Vec<Region>)
        ensures
            region_views(out@) == regions_at(self.keyframes@, ts as int),
    {
        let kfs = &self.keyframes;
        if kfs.len() == 0 {
            let out: Vec<Region> = Vec::new();
            assert(region_views(out@) =~= Seq::<RegionView>::empty());
            return out;
        }
        if ts <= kfs[0].timestamp {
            let out = kfs[0].regions.clone();
            assert(out@ =~= kfs[0].regions@);
            return out;
        }
        let last = kfs.len() - 1;
        if ts >= kfs[last].timestamp {
            let out = kfs[last].regions.clone();
            assert(out@ =~= kfs[last as int].regions@);
            return out;
        }
        let mut j: usize = 1;
        while kfs[j].timestamp < ts
            invariant
                1 <= j <= last,
                last == kfs.len() - 1,
                kfs[last as int].timestamp > ts,
                forall|k: int| 0 <= k < j ==> (#[trigger] kfs@[k]).timestamp < ts,
            decreases kfs.len() - j,
        {
            j += 1;
        }
        proof {
            lemma_count_before_is(kfs@, ts as int, j as int);
        }
        let a = &kfs[j - 1];
        let b = &kfs[j];
        let num = (ts as i128 - a.timestamp as i128) as u64;
        let den = (b.timestamp as i128 - a.timestamp as i128) as u64;
        interpolate_keyframes(a, b, num, den)
    }
}

/// Filtering a list of which no keyframe is at time `t` leaves nothing.
proof fn lemma_none_at_time(s: Seq<Keyframe>, t: int)
    requires
        forall|k: int| 0 <= k < s.len() ==> (#[trigger] s[k]).timestamp != t,
    ensures
        s.filter(at_time(t)) == Seq::<Keyframe>::empty(),
    decreases s.len(),
{
    reveal(Seq::filter);
    if s.len() > 0 {
        lemma_none_at_time(s.drop_last(), t);
    }
}

/// Moving a keyframe towards the front, past keyframes of other times only,
/// keeps the order among the keyframes of each time.
proof fn lemma_move_keeps_groups(v: Seq<Keyframe>, j: int, i: int, t: int)
    requires
        0 <= j <= i < v.len(),
        forall|k: int| j <= k < i ==> (#[trigger] v[k]).timestamp != v[i].timestamp,
    ensures
        v.remove(i).insert(j, v[i]).filter(at_time(t)) == v.filter(at_time(t)),
{
    let head = v.subrange(0, j);
    let passed = v.subrange(j, i);
    let moved = seq![v[i]];
    let tail = v.subrange(i + 1, v.len() as int);
    let p = at_time(t);
    assert(v =~= ((head + passed) + moved) + tail);
    assert(v.remove(i).insert(j, v[i]) =~= ((head + moved) + passed) + tail);
    Seq::filter_distributes_over_add(head + passed, moved, p);
    Seq::filter_distributes_over_add(head, passed, p);
    Seq::filter_distributes_over_add((head + passed) + moved, tail, p);
    Seq::filter_distributes_over_add(head + moved, passed, p);
    Seq::filter_distributes_over_add(head, moved, p);
    Seq::filter_distributes_over_add((head + moved) + passed, tail, p);
    if v[i].timestamp == t {
        lemma_none_at_time(passed, t);
    } else {
        lemma_none_at_time(moved, t);
    }
    assert(((head.filter(p) + moved.filter(p)) + passed.filter(p)) + tail.filter(p) =~= ((
    head.filter(p) + passed.filter(p)) + moved.filter(p)) + tail.filter(p));
}

impl RegionConfig {
    /// Sorts the keyframes ascending by timestamp; keyframes of the same
    /// timestamp keep their order. Call this once after construction so that
    /// `get_regions_at` finds the keyframes around a timestamp.
    pub fn sort_keyframes(&mut self)
        ensures
            is_stable_sort_of(final(self).keyframes@, old(self).keyframes@),
            final(self).video_path == old(self).video_path,
            final(self).expectations == old(self).expectations,
    {
        let ghost before = self.keyframes@;
        let n = self.keyframes.len();
        let mut i: usize = 0;
        while i < n
            invariant
                i <= n,
                self.keyframes.len() == n,
                before.len() == n,
                self.video_path == old(self).video_path,
                self.expectations == old(self).expectations,
                forall|a: int, b: int|
                    0 <= a <= b < i ==> self.keyframes@[a].timestamp
                        <= self.keyframes@[b].timestamp,
                forall|t: int| #[trigger]
                    self.keyframes@.filter(at_time(t)) == before.filter(at_time(t)),
            decreases n - i,
        {
            let ts = self.keyframes[i].timestamp;
            let mut j: usize = i;
            while j > 0 && self.keyframes[j - 1].timestamp > ts
                invariant
                    j <= i < n,
                    self.keyframes.len() == n,
                    ts == self.keyframes@[i as int].timestamp,
                    forall|k: int| j <= k < i ==> (#[trigger] self.keyframes@[k]).timestamp > ts,
                decreases j,
            {
                j -= 1;
            }
            if j < i {
                let ghost cur = self.keyframes@;
                let moved = self.keyframes.remove(i);
                self.keyframes.insert(j, moved);
                proof {
                    let now = self.keyframes@;
                    assert(now == cur.remove(i as int).insert(j as int, cur[i as int]));
                    assert forall|t: int| #[trigger]
                        now.filter(at_time(t)) == before.filter(at_time(t)) by {
                        lemma_move_keeps_groups(cur, j as int, i as int, t);
                    }
                    assert forall|a: int, b: int| 0 <= a <= b < i + 1 implies now[a].timestamp
                        <= now[b].timestamp by {
                        let from_a = if a < j {
                            a
                        } else if a == j {
                            i as int
                        } else {
                            a - 1
                        };
                        let from_b = if b < j {
                            b
                        } else if b == j {
                            i as int
                        } else {
                            b - 1
                        };
                        assert(now[a] == cur[from_a]);
                        assert(now[b] == cur[from_b]);
                        if j > 0 {
                            assert(cur[j - 1].timestamp <= ts);
                        }
                    }
                }
            }
            i += 1;
        }
    }
}

/// Where a list holds a region of some name, `last_named` finds one.
proof fn lemma_last_named_some(rs: Seq<Region>, k: int)
    requires
        0 <= k < rs.len(),
    ensures
        last_named(rs, rs[k].name@) is Some,
    decreases rs.len(),
{
    if rs.last().name@ != rs[k].name@ {
        assert(rs.drop_last()[k] == rs[k]);
        lemma_last_named_some(rs.drop_last(), k);
    }
}

/// What `last_named` finds is a region of the list and has the name asked for.
proof fn lemma_last_named_member(rs: Seq<Region>, name: Seq<char>)
    ensures
        match last_named(rs, name) {
            Some(r) => r.name@ == name && rs.contains(r),
            None => forall|k: int| 0 <= k < rs.len() ==> (#[trigger] rs[k]).name@ != name,
        },
    decreases rs.len(),
{
    if rs.len() > 0 {
        if rs.last().name@ == name {
            assert(rs[rs.len() - 1] == rs.last());
        } else {
            let front = rs.drop_last();
            lemma_last_named_member(front, name);
            match last_named(front, name) {
                Some(r) => {
                    let k = choose|k: int| 0 <= k < front.len() && front[k] == r;
                    assert(rs[k] == r);
                },
                None => {
                    assert forall|k: int| 0 <= k < rs.len() implies (#[trigger] rs[k]).name@
                        != name by {
                        if k < front.len() {
                            assert(front[k] == rs[k]);
                        }
                    }
                },
            }
        }
    }
}

/// Filtering a list of which every element passes leaves it as it is.
proof fn lemma_filter_all(s: Seq<Region>, p: spec_fn(Region) -> bool)
    requires
        forall|k: int| 0 <= k < s.len() ==> p(#[trigger] s[k]),
    ensures
        s.filter(p) == s,
    decreases s.len(),
{
    reveal(Seq::filter);
    if s.len() > 0 {
        lemma_filter_all(s.drop_last(), p);
        assert(s.drop_last().push(s.last()) =~= s);
    }
}

/// Filtering a list of which no element passes leaves nothing.
proof fn lemma_filter_none(s: Seq<Region>, p: spec_fn(Region) -> bool)
    requires
        forall|k: int| 0 <= k < s.len() ==> !p(#[trigger] s[k]),
    ensures
        s.filter(p) == Seq::<Region>::empty(),
    decreases s.len(),
{
    reveal(Seq::filter);
    if s.len() > 0 {
        lemma_filter_none(s.drop_last(), p);
    }
}

/// The later keyframe `b` continues the earlier keyframe `a`: it has the
/// regions of `a` by name, in the same places and each with the rectangle
/// that is found under its name, and whatever follows them is new.
pub open spec fn continues(a: Seq<Region>, b: Seq<Region>) -> bool {
    &&& a.len() <= b.len()
    &&& forall|k: int| 0 <= k < a.len() ==> (#[trigger] a[k]).name@ == b[k].name@
    &&& forall|k: int|
        0 <= k < a.len() ==> (match last_named(b, (#[trigger] b[k]).name@) {
            Some(r) => r@ == b[k]@,
            None => false,
        })
    &&& forall|k: int| a.len() <= k < b.len() ==> last_named(a, (#[trigger] b[k]).name@) is None
}

/// At the time of the later keyframe a region that both keyframes name
/// stands where the later keyframe has it.
proof fn lemma_carried_one_at_end(ra: Region, b: Seq<Region>, k: int, den: int)
    requires
        den > 0,
        0 <= k < b.len(),
        ra.name@ == b[k].name@,
        match last_named(b, b[k].name@) {
            Some(r) => r@ == b[k]@,
            None => false,
        },
    ensures
        carried_one(ra, b, den, den) == b[k]@,
{
    let rb = last_named(b, b[k].name@)->0;
    lemma_lerp_end(ra@.x, rb@.x, den);
    lemma_lerp_end(ra@.y, rb@.y, den);
    lemma_lerp_end(ra@.width, rb@.width, den);
    lemma_lerp_end(ra@.height, rb@.height, den);
}

/// Where the later keyframe continues the earlier one, the regions that
/// only the later one has are those that follow the continued ones.
proof fn lemma_added_when_continued(a: Seq<Region>, b: Seq<Region>)
    requires
        continues(a, b),
    ensures
        b.filter(is_new_in(a)) == b.subrange(a.len() as int, b.len() as int),
{
    let old_part = b.subrange(0, a.len() as int);
    let new_part = b.subrange(a.len() as int, b.len() as int);
    assert(b =~= old_part + new_part);
    assert forall|k: int| 0 <= k < old_part.len() implies !is_new_in(a)(#[trigger] old_part[k]) by {
        assert(a[k].name@ == b[k].name@);
        lemma_last_named_some(a, k);
    }
    assert forall|k: int| 0 <= k < new_part.len() implies is_new_in(a)(#[trigger] new_part[k]) by {
        assert(new_part[k] == b[k + a.len()]);
    }
    lemma_filter_none(old_part, is_new_in(a));
    lemma_filter_all(new_part, is_new_in(a));
    Seq::filter_distributes_over_add(old_part, new_part, is_new_in(a));
    assert(old_part.filter(is_new_in(a)) + new_part.filter(is_new_in(a)) =~= new_part);
}

/// At the time of the later keyframe the interpolated regions are those of
/// the later keyframe, where it continues the earlier one.
proof fn lemma_interpolated_at_end(a: Seq<Region>, b: Seq<Region>, den: int)
    requires
        den > 0,
        continues(a, b),
    ensures
        interpolated(a, b, den, den) == region_views(b),
{
    let moved = carried(a, b, den, den);
    assert forall|k: int| 0 <= k < a.len() implies #[trigger] moved[k] == b[k]@ by {
        assert(a[k].name@ == b[k].name@);
        lemma_carried_one_at_end(a[k], b, k, den);
    }
    lemma_added_when_continued(a, b);
    let new_part = b.subrange(a.len() as int, b.len() as int);
    assert(added(a, b) == region_views(new_part));
    assert(moved + region_views(new_part) =~= region_views(b));
}

/// A filter that removes nothing passes every element.
proof fn lemma_filter_keeps_all(s: Seq<Region>, p: spec_fn(Region) -> bool)
    requires
        s.filter(p).len() == s.len(),
    ensures
        forall|k: int| 0 <= k < s.len() ==> p(#[trigger] s[k]),
    decreases s.len(),
{
    reveal(Seq::filter);
    if s.len() > 0 {
        let front = s.drop_last();
        front.lemma_filter_len(p);
        lemma_filter_keeps_all(front, p);
        assert forall|k: int| 0 <= k < s.len() implies p(#[trigger] s[k]) by {
            if k < front.len() {
                assert(front[k] == s[k]);
            }
        }
    }
}

/// Where the interpolated regions at the time of the later keyframe are
/// those of the later keyframe, the later keyframe continues the earlier one.
proof fn lemma_continues_when_reached(a: Seq<Region>, b: Seq<Region>, den: int)
    requires
        den > 0,
        interpolated(a, b, den, den) == region_views(b),
    ensures
        continues(a, b),
{
    let all = interpolated(a, b, den, den);
    let moved = carried(a, b, den, den);
    let kept = b.filter(is_new_in(a));
    b.lemma_filter_len(is_new_in(a));
    assert(all.len() == a.len() + kept.len());
    assert forall|k: int| 0 <= k < a.len() implies (#[trigger] a[k]).name@ == b[k].name@ by {
        assert(all[k] == moved[k]);
        assert(moved[k].name == a[k].name@);
        assert(region_views(b)[k] == b[k]@);
    }
    assert forall|k: int| 0 <= k < a.len() implies (match last_named(b, (#[trigger] b[k]).name@) {
        Some(r) => r@ == b[k]@,
        None => false,
    }) by {
        assert(a[k].name@ == b[k].name@);
        lemma_last_named_some(b, k);
        lemma_last_named_member(b, b[k].name@);
        let rb = last_named(b, b[k].name@)->0;
        lemma_lerp_end(a[k]@.x, rb@.x, den);
        lemma_lerp_end(a[k]@.y, rb@.y, den);
        lemma_lerp_end(a[k]@.width, rb@.width, den);
        lemma_lerp_end(a[k]@.height, rb@.height, den);
        assert(all[k] == moved[k]);
        assert(region_views(b)[k] == b[k]@);
    }
    let old_part = b.subrange(0, a.len() as int);
    let new_part = b.subrange(a.len() as int, b.len() as int);
    assert(b =~= old_part + new_part);
    assert forall|k: int| 0 <= k < old_part.len() implies !is_new_in(a)(#[trigger] old_part[k]) by {
        assert(a[k].name@ == b[k].name@);
        lemma_last_named_some(a, k);
    }
    lemma_filter_none(old_part, is_new_in(a));
    Seq::filter_distributes_over_add(old_part, new_part, is_new_in(a));
    assert(old_part.filter(is_new_in(a)) + new_part.filter(is_new_in(a)) =~= new_part.filter(
        is_new_in(a),
    ));
    lemma_filter_keeps_all(new_part, is_new_in(a));
    assert forall|k: int| a.len() <= k < b.len() implies last_named(a, (#[trigger] b[k]).name@)
        is None by {
        assert(new_part[k - a.len()] == b[k]);
        assert(is_new_in(a)(new_part[k - a.len()]));
    }
}

/// No rounding drift: at the time of a keyframe the regions are exactly
/// those of the keyframe. This holds of the first and of the last keyframe,
/// and of a keyframe in between exactly where it continues the one before
/// it. The keyframes are in ascending order and the keyframe shares its
/// time with neither neighbour.
pub proof fn lemma_regions_at_keyframe(kfs: Seq<Keyframe>, i: int)
    requires
        is_sorted(kfs),
        0 <= i < kfs.len(),
        i > 0 ==> kfs[i - 1].timestamp < kfs[i].timestamp,
        i + 1 < kfs.len() ==> kfs[i].timestamp < kfs[i + 1].timestamp,
    ensures
        regions_at(kfs, kfs[i].timestamp as int) == region_views(kfs[i].regions@) <==> (i == 0 || i
            == kfs.len() - 1 || continues(kfs[i - 1].regions@, kfs[i].regions@)),
{
    let ts = kfs[i].timestamp as int;
    if 0 < i < kfs.len() - 1 {
        assert(kfs[0].timestamp <= kfs[i - 1].timestamp);
        assert(kfs[i + 1].timestamp <= kfs[kfs.len() - 1].timestamp);
        assert forall|k: int| 0 <= k < i implies (#[trigger] kfs[k]).timestamp < ts by {
            assert(kfs[k].timestamp <= kfs[i - 1].timestamp);
        }
        lemma_count_before_is(kfs, ts, i);
        let a = kfs[i - 1].regions@;
        let b = kfs[i].regions@;
        let den = ts - kfs[i - 1].timestamp;
        if continues(a, b) {
            lemma_interpolated_at_end(a, b, den);
        }
        if interpolated(a, b, den, den) == region_views(b) {
            lemma_continues_when_reached(a, b, den);
        }
    } else if i == 0 {
    } else {
        assert(kfs[0].timestamp <= kfs[i - 1].timestamp);
    }
}

/// At its two ends an interpolation gives the end values themselves.
pub proof fn lemma_lerp_end(a: int, b: int, den: int)
    requires
        den > 0,
    ensures
        lerp(a, b, 0, den) == a,
        lerp(a, b, den, den) == b,
{
    assert(a * den + (b - a) * 0 == a * den) by (nonlinear_arith);
    assert(a * den + (b - a) * den == b * den) by (nonlinear_arith);
    lemma_round_div_between(a * den, den, a, a);
    lemma_round_div_between(b * den, den, b, b);
}

/// A region that only the later of the two keyframes around `ts` has
/// appears among the regions at `ts` as that keyframe has it.
pub proof fn lemma_new_region_appears(kfs: Seq<Keyframe>, ts: int, k: int)
    requires
        kfs.len() > 0,
        kfs.first().timestamp < ts < kfs.last().timestamp,
        0 <= k < kfs[count_before(kfs, ts) as int].regions@.len(),
        last_named(
            kfs[count_before(kfs, ts) - 1].regions@,
            kfs[count_before(kfs, ts) as int].regions@[k].name@,
        ) is None,
    ensures
        regions_at(kfs, ts).contains(kfs[count_before(kfs, ts) as int].regions@[k]@),
{
    let j = count_before(kfs, ts) as int;
    let a = kfs[j - 1].regions@;
    let b = kfs[j].regions@;
    let kept = b.filter(is_new_in(a));
    b.lemma_filter_contains(is_new_in(a), k);
    let m = choose|m: int| 0 <= m < kept.len() && kept[m] == b[k];
    let all = regions_at(kfs, ts);
    let moved = carried(a, b, ts - kfs[j - 1].timestamp, kfs[j].timestamp - kfs[j - 1].timestamp);
    assert(all[moved.len() + m] == b[k]@);
}

/// A region does not appear before it is first named: where no keyframe
/// before keyframe `j` names it, no region at or before the time of
/// keyframe `j - 1` has the name. The keyframes are in ascending order and
/// keyframe `j` lies after keyframe `j - 1`.
pub proof fn lemma_region_absent_before(kfs: Seq<Keyframe>, j: int, name: Seq<char>, ts: int)
    requires
        is_sorted(kfs),
        1 <= j < kfs.len(),
        kfs[j - 1].timestamp < kfs[j].timestamp,
        ts <= kfs[j - 1].timestamp,
        forall|k: int| 0 <= k < j ==> last_named((#[trigger] kfs[k]).regions@, name) is None,
    ensures
        forall|m: int|
            0 <= m < regions_at(kfs, ts).len() ==> (#[trigger] regions_at(kfs, ts)[m]).name
                != name,
{
    let all = regions_at(kfs, ts);
    assert(kfs[j].timestamp <= kfs[kfs.len() - 1].timestamp);
    assert forall|m: int| 0 <= m < all.len() implies (#[trigger] all[m]).name != name by {
        if ts <= kfs.first().timestamp {
            lemma_last_named_member(kfs[0].regions@, name);
        } else {
            let i = count_before(kfs, ts) as int;
            lemma_count_before_bounds(kfs, ts);
            if i >= j {
                assert(kfs[j - 1].timestamp < ts);
            }
            assert(1 <= i < j) by {
                if i == 0 {
                    assert(kfs[0].timestamp >= ts);
                }
            }
            let a = kfs[i - 1].regions@;
            let b = kfs[i].regions@;
            lemma_last_named_member(a, name);
            lemma_last_named_member(b, name);
            let moved = carried(a, b, ts - kfs[i - 1].timestamp, kfs[i].timestamp - kfs[i
                - 1].timestamp);
            if m < moved.len() {
                assert(moved[m].name == a[m].name@);
            } else {
                let kept = b.filter(is_new_in(a));
                let r = kept[m - moved.len()];
                assert(kept.contains(r));
                b.lemma_filter_contains_rev(is_new_in(a), r);
                let q = choose|q: int| 0 <= q < b.len() && b[q] == r;
                assert(b[q].name@ != name);
            }
        }
    }
}

/// What the first entry named `name` expects.
pub open spec fn expectation_of(entries: Seq<NamedExpectation>, name: Seq<char>) -> Option<
    RegionExpectation,
>
    decreases entries.len(),
{
    if entries.len() == 0 {
        None
    } else if entries.first().name@ == name {
        Some(entries.first().expectation)
    } else {
        expectation_of(entries.drop_first(), name)
    }
}

impl RegionConfig {
    /// What the region named `name` is expected to show, if anything is
    /// declared for it.
    pub fn expectation_for(&self, name: &String) -> (found: Option<&RegionExpectation>)
        ensures
            match found {
                Some(e) => expectation_of(self.expectations@, name@) == Some(*e),
                None => expectation_of(self.expectations@, name@) is None,
            },
    {
        let mut i: usize = 0;
        assert(self.expectations@.skip(0) == self.expectations@);
        while i < self.expectations.len()
            invariant
                i <= self.expectations.len(),
                expectation_of(self.expectations@, name@) == expectation_of(
                    self.expectations@.skip(i as int),
                    name@,
                ),
            decreases self.expectations.len() - i,
        {
            proof {
                assert(self.expectations@.skip(i as int).drop_first() == self.expectations@.skip(
                    i + 1,
                ));
            }
            if self.expectations[i].name == *name {
                return Some(&self.expectations[i].expectation);
            }
            i += 1;
        }
        None
    }
}

/// Between the first and the last keyframe the regions are interpolated
/// between the first pair of neighbouring keyframes that has the time
/// between its two times; the later keyframe of the pair lies after the
/// earlier one, so that the interpolation divides by no zero.
pub proof fn lemma_bracketing_pair(kfs: Seq<Keyframe>, ts: int)
    requires
        kfs.len() > 0,
        kfs.first().timestamp < ts < kfs.last().timestamp,
    ensures
        1 <= count_before(kfs, ts) < kfs.len(),
        kfs[count_before(kfs, ts) - 1].timestamp < ts <= kfs[count_before(kfs, ts) as int].timestamp,
        forall|i: int|
            0 <= i < count_before(kfs, ts) - 1 ==> !((#[trigger] kfs[i]).timestamp <= ts <= kfs[i
                + 1].timestamp),
{
    lemma_count_before_bounds(kfs, ts);
    let j = count_before(kfs, ts) as int;
    if j == 0 {
        assert(kfs[0].timestamp >= ts);
    }
    if j >= kfs.len() {
        assert(kfs[kfs.len() - 1].timestamp < ts);
    }
    assert(kfs[j - 1].timestamp < ts);
    assert forall|i: int| 0 <= i < j - 1 implies !((#[trigger] kfs[i]).timestamp <= ts <= kfs[i
        + 1].timestamp) by {
        assert(kfs[i + 1].timestamp < ts);
    }
}

/// There are regions at every time, unless there is no keyframe or a
/// keyframe without regions.
pub proof fn lemma_regions_exist(kfs: Seq<Keyframe>, ts: int)
    requires
        kfs.len() > 0,
        forall|i: int| 0 <= i < kfs.len() ==> (#[trigger] kfs[i]).regions@.len() > 0,
    ensures
        regions_at(kfs, ts).len() > 0,
{
    if kfs.first().timestamp < ts < kfs.last().timestamp {
        lemma_bracketing_pair(kfs, ts);
        let j = count_before(kfs, ts) as int;
        assert(kfs[j - 1].regions@.len() > 0);
    } else if ts <= kfs.first().timestamp {
        assert(kfs[0].regions@.len() > 0);
    } else {
        assert(kfs[kfs.len() - 1].regions@.len() > 0);
    }
}

} // verus!
