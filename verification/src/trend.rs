//! Memory trend over a rolling window — the difference between "busy" and
//! "leaking".
//!
//! A single memory reading cannot tell those apart, and neither can a peak: a
//! process that spikes to 2 GB and returns to 400 MB is healthy, while one
//! whose *quiet* level creeps from 400 MB to 900 MB is leaking even if it never
//! spikes at all.
//!
//! So the signal is the **floor**: the lowest level the process returns to. A
//! rising floor is a leak; a high peak with a flat floor is just work. The
//! slope is fitted by least squares over the window and reported in MiB/hour,
//! which is the unit the question is actually asked in — "will this survive the
//! night?"
//!
//! Bounded like everything else here: a fixed ring of [`CAPACITY`] samples,
//! oldest overwritten. No growth, no files.

pub mod laws;

use crate::float::accuracy;
use crate::float::double;
use crate::float::double::Double;
use vstd::prelude::*;

verus! {

/// Samples kept. At one snapshot every 30 s this covers four hours, which is
/// long enough for a slow leak to show a slope and short enough that a fixed
/// buffer stays small.
pub const CAPACITY: usize = 512;

/// Least-squares fit needs enough points to mean anything; below this the slope
/// is noise wearing a number's clothes.
pub const MIN_SAMPLES_FOR_SLOPE: usize = 8;

/// A window must span more than this, in seconds, before a per-hour rate is honest.
/// Five minutes of data extrapolated to an hour is a 12x multiplication of
/// noise.
pub const MIN_SPAN_SECS: u64 = 300;

/// Time segments the window is split into before taking each one's minimum.
/// The slope is fitted to those minima — see [`Trend::slope_mib_per_hour`].
pub const SEGMENTS: usize = 8;

/// Segments that must actually contain a sample. Fitting a line through two
/// points is not a trend.
pub const MIN_SEGMENTS: usize = 4;

/// The largest finite number.
pub const LARGEST: u64 = 0x7fef_ffff_ffff_ffff;

/// The distance between one and the next larger number.
pub const EPSILON: u64 = 0x3cb0_0000_0000_0000;

/// One reading.
#[derive(Debug, Clone, Copy, PartialEq, Eq, Structural)]
pub struct Point {
    pub t_secs: Double,
    pub bytes: u64,
}

/// The earliest time among the readings, [`LARGEST`] without any.
pub open spec fn earliest(s: Seq<Point>) -> Double
    decreases s.len(),
{
    if s.len() == 0 {
        Double { bits: LARGEST }
    } else {
        double::smaller(earliest(s.drop_last()), s.last().t_secs)
    }
}

/// The latest time among the readings, minus [`LARGEST`] without any.
pub open spec fn latest(s: Seq<Point>) -> Double
    decreases s.len(),
{
    if s.len() == 0 {
        double::opposite(Double { bits: LARGEST })
    } else {
        double::larger(latest(s.drop_last()), s.last().t_secs)
    }
}

/// Seconds that the readings cover.
pub open spec fn span_of(s: Seq<Point>) -> Double {
    double::larger(
        double::sum(latest(s), double::opposite(earliest(s))),
        double::of_quotient(0, 1),
    )
}

/// How wide a segment is.
pub open spec fn width_of(span: Double) -> Double {
    double::quotient(span, double::of_quotient(SEGMENTS as nat, 1))
}

/// The segment that a time falls into. The end of the window belongs to the
/// last one.
pub open spec fn segment(t: Double, t0: Double, width: Double) -> int {
    let k = double::quotient(double::sum(t, double::opposite(t0)), width).truncated();
    if k < SEGMENTS {
        k as int
    } else {
        SEGMENTS - 1
    }
}

/// The lowest reading of segment `k`, the first of them where several are as
/// low.
pub open spec fn lowest(s: Seq<Point>, t0: Double, width: Double, k: int) -> Option<Point>
    decreases s.len(),
{
    if s.len() == 0 {
        None
    } else {
        let p = s.last();
        let low = lowest(s.drop_last(), t0, width, k);
        if segment(p.t_secs, t0, width) == k && (low is None || low->0.bytes > p.bytes) {
            Some(p)
        } else {
            low
        }
    }
}

/// The lowest readings of the segments before `k`, in the order of the
/// segments.
pub open spec fn floors_before(s: Seq<Point>, t0: Double, width: Double, k: int) -> Seq<Point>
    decreases k,
{
    if k <= 0 {
        Seq::empty()
    } else {
        let f = floors_before(s, t0, width, k - 1);
        match lowest(s, t0, width, k - 1) {
            Some(p) => f.push(p),
            None => f,
        }
    }
}

/// The lowest reading of each segment that has one.
pub open spec fn floors_of(s: Seq<Point>, span: Double) -> Seq<Point> {
    floors_before(s, earliest(s), width_of(span), SEGMENTS as int)
}

/// Where adding up starts: the zero that changes no number it is added to.
pub open spec fn nothing() -> Double {
    double::opposite(double::of_quotient(0, 1))
}

/// Sum of the times.
pub open spec fn times(f: Seq<Point>) -> Double
    decreases f.len(),
{
    if f.len() == 0 {
        nothing()
    } else {
        double::sum(times(f.drop_last()), f.last().t_secs)
    }
}

/// Sum of the levels.
pub open spec fn levels(f: Seq<Point>) -> Double
    decreases f.len(),
{
    if f.len() == 0 {
        nothing()
    } else {
        double::sum(levels(f.drop_last()), double::of_quotient(f.last().bytes as nat, 1))
    }
}

/// Sum of the products of both deviations from the means.
pub open spec fn covariation(f: Seq<Point>, mean_t: Double, mean_y: Double) -> Double
    decreases f.len(),
{
    if f.len() == 0 {
        double::of_quotient(0, 1)
    } else {
        let dt = double::sum(f.last().t_secs, double::opposite(mean_t));
        let dy = double::sum(
            double::of_quotient(f.last().bytes as nat, 1),
            double::opposite(mean_y),
        );
        double::sum(covariation(f.drop_last(), mean_t, mean_y), double::product(dt, dy))
    }
}

/// Sum of the squared deviations of the times from their mean.
pub open spec fn variation(f: Seq<Point>, mean_t: Double) -> Double
    decreases f.len(),
{
    if f.len() == 0 {
        double::of_quotient(0, 1)
    } else {
        let dt = double::sum(f.last().t_secs, double::opposite(mean_t));
        double::sum(variation(f.drop_last(), mean_t), double::product(dt, dt))
    }
}

/// The least-squares slope through the points in MiB/hour, unless they all
/// stand at one instant.
pub open spec fn fitted(f: Seq<Point>) -> Option<Double> {
    let n = double::of_quotient(f.len(), 1);
    let mean_t = double::quotient(times(f), n);
    let mean_y = double::quotient(levels(f), n);
    let den = variation(f, mean_t);
    if den.not_above(Double { bits: EPSILON }) {
        None
    } else {
        Some(
            double::quotient(
                double::product(
                    double::quotient(covariation(f, mean_t, mean_y), den),
                    double::of_quotient(3600, 1),
                ),
                double::of_quotient(1048576, 1),
            ),
        )
    }
}

/// The segments can be told apart, and enough of them saw a reading.
pub open spec fn supported(s: Seq<Point>, span: Double) -> bool {
    &&& !width_of(span).not_above(double::of_quotient(0, 1))
    &&& floors_of(s, span).len() >= MIN_SEGMENTS
}

/// The slope of the floor in MiB/hour.
pub open spec fn slope_of(s: Seq<Point>, span: Double) -> Option<Double> {
    if s.len() < MIN_SAMPLES_FOR_SLOPE || !double::of_quotient(MIN_SPAN_SECS as nat, 1).below(span) {
        None
    } else if !supported(s, span) {
        None
    } else {
        fitted(floors_of(s, span))
    }
}

/// The lowest level among the readings.
pub open spec fn is_floor(s: Seq<Point>, v: u64) -> bool {
    &&& exists|i: int| 0 <= i < s.len() && #[trigger] s[i].bytes == v
    &&& forall|i: int| 0 <= i < s.len() ==> v <= #[trigger] s[i].bytes
}

/// The highest level among the readings.
pub open spec fn is_peak(s: Seq<Point>, v: u64) -> bool {
    &&& exists|i: int| 0 <= i < s.len() && #[trigger] s[i].bytes == v
    &&& forall|i: int| 0 <= i < s.len() ==> #[trigger] s[i].bytes <= v
}

/// What a window of readings says.
pub open spec fn describes(s: Seq<Point>, t: MemoryTrend) -> bool {
    &&& t.samples == s.len()
    &&& t.window_secs == span_of(s).truncated()
    &&& is_floor(s, t.floor)
    &&& is_peak(s, t.peak)
    &&& t.slope_mib_per_hour == slope_of(s, span_of(s))
}

/// Rolling memory history for one series (working set, or private bytes).
#[derive(Debug, Clone)]
pub struct Trend {
    pub ring: Vec<Point>,
    pub next: usize,
}

impl Trend {
    pub open spec fn wf(&self) -> bool {
        &&& self.ring@.len() <= CAPACITY
        &&& self.next < CAPACITY
        &&& self.ring@.len() < CAPACITY ==> self.next == 0
    }

    /// The readings of the window, oldest first.
    pub open spec fn window(&self) -> Seq<Point> {
        self.ring@.skip(self.next as int) + self.ring@.take(self.next as int)
    }

    /// The window is what is left of this history: its newest [`CAPACITY`]
    /// readings.
    pub open spec fn keeps(&self, history: Seq<Point>) -> bool {
        self.window() == newest(history)
    }
}

/// The newest [`CAPACITY`] readings of a history, all of them while there are
/// fewer.
pub open spec fn newest(history: Seq<Point>) -> Seq<Point> {
    if history.len() <= CAPACITY {
        history
    } else {
        history.skip(history.len() - CAPACITY)
    }
}

impl Default for Trend {
    fn default() -> (r: Self)
        ensures
            r.wf(),
            r.ring@.len() == 0,
            r.keeps(Seq::empty()),
    {
        let r = Trend { ring: Vec::with_capacity(CAPACITY), next: 0 };
        assert(r.window() =~= Seq::<Point>::empty());
        r
    }
}

impl Trend {
    pub fn record(&mut self, t_secs: Double, bytes: u64)
        requires
            old(self).wf(),
        ensures
            final(self).wf(),
            final(self).window() == (if old(self).ring@.len() < CAPACITY {
                old(self).window()
            } else {
                old(self).window().drop_first()
            }).push(Point { t_secs, bytes }),
            forall|h: Seq<Point>|
                old(self).keeps(h) ==> #[trigger] final(self).keeps(h.push(Point { t_secs, bytes })),
    {
        let p = Point { t_secs, bytes };
        if self.ring.len() < CAPACITY {
            self.ring.push(p);
        } else {
            self.ring.set(self.next, p);
            self.next = (self.next + 1) % CAPACITY;
        }
        proof {
            let was = if old(self).ring@.len() < CAPACITY {
                old(self).window()
            } else {
                old(self).window().drop_first()
            };
            assert(self.window() =~= was.push(p));
            assert forall|h: Seq<Point>| old(self).keeps(h) implies #[trigger] self.keeps(
                h.push(p),
            ) by {
                if h.len() < CAPACITY {
                    assert(self.window() =~= h.push(p));
                } else {
                    assert(old(self).ring@.len() == CAPACITY);
                    assert(self.window() =~= h.push(p).skip(h.len() + 1 - CAPACITY));
                }
            }
        }
    }

    fn bounds(&self) -> (r: (Double, Double))
        ensures
            r.0 == earliest(self.ring@),
            r.1 == latest(self.ring@),
    {
        let mut first: Double = Double { bits: LARGEST };
        let mut last: Double = Double { bits: LARGEST }.negate();
        let mut i: usize = 0;
        assert(self.ring@.take(0) =~= Seq::<Point>::empty());
        while i < self.ring.len()
            invariant
                i <= self.ring@.len(),
                first == earliest(self.ring@.take(i as int)),
                last == latest(self.ring@.take(i as int)),
            decreases self.ring@.len() - i,
        {
            let p: Point = self.ring[i];
            first = first.min(p.t_secs);
            last = last.max(p.t_secs);
            assert(self.ring@.take(i + 1).drop_last() =~= self.ring@.take(i as int));
            i = i + 1;
        }
        assert(self.ring@.take(i as int) =~= self.ring@);
        (first, last)
    }

    /// Summarise the window. `None` until there is at least one sample.
    pub fn summary(&self) -> (r: Option<MemoryTrend>)
        requires
            self.wf(),
        ensures
            r is None <==> self.ring@.len() == 0,
            r matches Some(t) ==> describes(self.ring@, t),
    {
        if self.ring.len() == 0 {
            return None;
        }
        let mut floor: u64 = self.ring[0].bytes;
        let mut peak: u64 = self.ring[0].bytes;
        let mut i: usize = 1;
        assert(self.ring@.take(1)[0] == self.ring@[0]);
        while i < self.ring.len()
            invariant
                1 <= i <= self.ring@.len(),
                is_floor(self.ring@.take(i as int), floor),
                is_peak(self.ring@.take(i as int), peak),
            decreases self.ring@.len() - i,
        {
            let ghost (low, high) = (floor, peak);
            let b: u64 = self.ring[i].bytes;
            if b < floor {
                floor = b;
            }
            if b > peak {
                peak = b;
            }
            proof {
                let was = self.ring@.take(i as int);
                let now = self.ring@.take(i + 1);
                assert(now =~= was.push(self.ring@[i as int]));
                assert(now[i as int].bytes == b);
                let x = choose|x: int| 0 <= x < was.len() && #[trigger] was[x].bytes == low;
                let y = choose|y: int| 0 <= y < was.len() && #[trigger] was[y].bytes == high;
                assert(now[x].bytes == low && now[y].bytes == high);
                assert forall|j: int| 0 <= j < now.len() implies floor <= #[trigger] now[j].bytes
                    <= peak by {
                    if j < i {
                        assert(now[j] == was[j]);
                    }
                }
            }
            i = i + 1;
        }
        assert(self.ring@.take(i as int) =~= self.ring@);
        let (t_min, t_max) = self.bounds();
        let span: Double = t_max.minus(t_min).max(Double::from_u64(0));
        Some(
            MemoryTrend {
                samples: self.ring.len() as u32,
                window_secs: span.to_u64(),
                floor,
                peak,
                slope_mib_per_hour: self.slope_mib_per_hour(span),
            },
        )
    }

    /// Least-squares slope of the **floor** against time, in MiB/hour.
    ///
    /// Fitted to per-segment minima, not to raw samples. Fitting raw samples
    /// makes the answer depend on where the spikes happen to land: a pure
    /// sawtooth that always returns to the same level reads as tens of MiB per
    /// hour of "growth" purely because each high sample sits later in time than
    /// the low one before it. Segment minima strip the spikes out and leave the
    /// resting level, which is the thing that actually has to stop rising.
    ///
    /// `None` rather than a number whenever the window cannot support one —
    /// too few points, too short a span, too few segments, or every sample at
    /// the same instant.
    pub fn slope_mib_per_hour(&self, span: Double) -> (r: Option<Double>)
        ensures
            r == slope_of(self.ring@, span),
    {
        if self.ring.len() < MIN_SAMPLES_FOR_SLOPE || !Double::from_u64(MIN_SPAN_SECS).less(span) {
            return None;
        }
        let floors: Vec<Point> = match self.segment_floors(span) {
            Some(f) => f,
            None => return None,
        };
        let n: Double = Double::from_u64(floors.len() as u64);
        let mut sum_t: Double = Double::from_u64(0).negate();
        let mut sum_y: Double = Double::from_u64(0).negate();
        let mut i: usize = 0;
        assert(floors@.take(0) =~= Seq::<Point>::empty());
        while i < floors.len()
            invariant
                i <= floors@.len(),
                sum_t == times(floors@.take(i as int)),
                sum_y == levels(floors@.take(i as int)),
            decreases floors@.len() - i,
        {
            let p: Point = floors[i];
            sum_t = sum_t.plus(p.t_secs);
            sum_y = sum_y.plus(Double::from_u64(p.bytes));
            assert(floors@.take(i + 1).drop_last() =~= floors@.take(i as int));
            i = i + 1;
        }
        assert(floors@.take(i as int) =~= floors@);
        let mean_t: Double = sum_t.over(n);
        let mean_y: Double = sum_y.over(n);

        let mut num: Double = Double::from_u64(0);
        let mut den: Double = Double::from_u64(0);
        let mut i: usize = 0;
        while i < floors.len()
            invariant
                i <= floors@.len(),
                num == covariation(floors@.take(i as int), mean_t, mean_y),
                den == variation(floors@.take(i as int), mean_t),
            decreases floors@.len() - i,
        {
            let p: Point = floors[i];
            let dt: Double = p.t_secs.minus(mean_t);
            num = num.plus(dt.times(Double::from_u64(p.bytes).minus(mean_y)));
            den = den.plus(dt.times(dt));
            assert(floors@.take(i + 1).drop_last() =~= floors@.take(i as int));
            i = i + 1;
        }
        assert(floors@.take(i as int) =~= floors@);
        if den.at_most(Double { bits: EPSILON }) {
            return None;
        }
        // bytes/second -> MiB/hour
        let bytes_per_sec: Double = num.over(den);
        Some(bytes_per_sec.times(Double::from_u64(3600)).over(Double::from_u64(1048576)))
    }

    /// The lowest sample in each time segment, carrying its own timestamp
    /// rather than the segment midpoint — every returned point is a real
    /// observation. `None` if too few segments saw any traffic.
    pub fn segment_floors(&self, span: Double) -> (r: Option<Vec<Point>>)
        ensures
            r is Some <==> supported(self.ring@, span),
            r matches Some(f) ==> f@ == floors_of(self.ring@, span),
    {
        let t0: Double = self.bounds().0;
        let width: Double = span.over(Double::from_u64(SEGMENTS as u64));
        if width.at_most(Double::from_u64(0)) {
            return None;
        }
        let mut floors: Vec<Point> = Vec::new();
        let mut k: usize = 0;
        while k < SEGMENTS
            invariant
                k <= SEGMENTS,
                t0 == earliest(self.ring@),
                width == width_of(span),
                floors@ == floors_before(self.ring@, t0, width, k as int),
            decreases SEGMENTS - k,
        {
            if let Some(p) = self.lowest_in(t0, width, k) {
                floors.push(p);
            }
            k = k + 1;
        }
        if floors.len() >= MIN_SEGMENTS {
            Some(floors)
        } else {
            None
        }
    }

    fn lowest_in(&self, t0: Double, width: Double, k: usize) -> (r: Option<Point>)
        ensures
            r == lowest(self.ring@, t0, width, k as int),
    {
        let mut best: Option<Point> = None;
        let mut i: usize = 0;
        assert(self.ring@.take(0) =~= Seq::<Point>::empty());
        while i < self.ring.len()
            invariant
                i <= self.ring@.len(),
                best == lowest(self.ring@.take(i as int), t0, width, k as int),
            decreases self.ring@.len() - i,
        {
            let p: Point = self.ring[i];
            let s: u64 = p.t_secs.minus(t0).over(width).to_u64();
            let own: u64 = if s < SEGMENTS as u64 {
                s
            } else {
                SEGMENTS as u64 - 1
            };
            assert(self.ring@.take(i + 1).drop_last() =~= self.ring@.take(i as int));
            if own == k as u64 {
                match best {
                    Some(low) => if low.bytes > p.bytes {
                        best = Some(p);
                    },
                    None => {
                        best = Some(p);
                    },
                }
            }
            i = i + 1;
        }
        assert(self.ring@.take(i as int) =~= self.ring@);
        best
    }
}

/// What the window says. Read `floor` and `slope_mib_per_hour` together: a
/// rising floor is the leak signal, and `peak` alone never is.
#[derive(Debug, Clone, Copy, PartialEq, Eq, Structural)]
pub struct MemoryTrend {
    pub samples: u32,
    /// Time actually covered, not the nominal window.
    pub window_secs: u64,
    /// Lowest value in the window — the level the process returns to.
    pub floor: u64,
    pub peak: u64,
    /// Fitted growth in MiB/hour. `None` when the window is too short or too
    /// sparse to support one.
    pub slope_mib_per_hour: Option<Double>,
}

impl MemoryTrend {
    /// Headroom the spikes need above the resting level.
    pub fn spike_headroom(&self) -> (r: u64)
        ensures
            r == self.peak.saturating_sub(self.floor),
            self.floor <= self.peak ==> self.floor + r == self.peak,
    {
        self.peak.saturating_sub(self.floor)
    }

    /// Whether the floor is climbing faster than `limit` MiB/hour.
    ///
    /// `false` while the slope is unknown: this answers "do I have evidence of
    /// a leak", and no evidence is not a leak.
    pub fn is_growing(&self, limit_mib_per_hour: Double) -> (r: bool)
        ensures
            r == match self.slope_mib_per_hour {
                Some(s) => limit_mib_per_hour.below(s),
                None => false,
            },
            self.slope_mib_per_hour matches Some(s) ==> (s.is_finite()
                && limit_mib_per_hour.is_finite() ==> r == (limit_mib_per_hour.units()
                < s.units())),
            self.slope_mib_per_hour is None ==> !r,
    {
        proof {
            if let Some(s) = self.slope_mib_per_hour {
                if s.is_finite() && limit_mib_per_hour.is_finite() {
                    accuracy::lemma_order_is_by_value(limit_mib_per_hour, s);
                }
            }
        }
        match self.slope_mib_per_hour {
            Some(s) => limit_mib_per_hour.less(s),
            None => false,
        }
    }
}

/// A window that is too short or too sparse has no slope: fewer than eight
/// samples, no more than five minutes, or samples in fewer than four segments.
pub proof fn a_thin_window_has_no_slope(s: Seq<Point>, t: MemoryTrend)
    requires
        describes(s, t),
        s.len() < 8 || span_of(s).not_above(double::of_quotient(300, 1)) || floors_of(
            s,
            span_of(s),
        ).len() < 4,
    ensures
        t.slope_mib_per_hour is None,
{
}

/// The floor is never above the peak, and the window never holds more than its
/// capacity.
pub proof fn the_floor_is_below_the_peak(series: Trend, t: MemoryTrend)
    requires
        series.wf(),
        describes(series.ring@, t),
    ensures
        t.floor <= t.peak,
        t.samples <= CAPACITY,
{
    let s = series.ring@;
    let i = choose|i: int| 0 <= i < s.len() && #[trigger] s[i].bytes == t.floor;
    assert(s[i].bytes <= t.peak);
}

/// Both sequences hold the same readings.
spec fn same_readings(a: Seq<Point>, b: Seq<Point>) -> bool {
    forall|p: Point| a.contains(p) == b.contains(p)
}

/// `x` stands where the earliest time does.
spec fn leads(s: Seq<Point>, x: Double) -> bool {
    &&& !x.is_nan()
    &&& x.rank() <= LARGEST
    &&& forall|p: Point| #[trigger] s.contains(p) && !p.t_secs.is_nan() ==> x.rank() <= p.t_secs.rank()
    &&& x.rank() == LARGEST || exists|p: Point| #[trigger]
        s.contains(p) && !p.t_secs.is_nan() && x.rank() == p.t_secs.rank()
}

/// `x` stands where the latest time does.
spec fn trails(s: Seq<Point>, x: Double) -> bool {
    &&& !x.is_nan()
    &&& x.rank() >= -LARGEST
    &&& forall|p: Point| #[trigger] s.contains(p) && !p.t_secs.is_nan() ==> x.rank() >= p.t_secs.rank()
    &&& x.rank() == -LARGEST || exists|p: Point| #[trigger]
        s.contains(p) && !p.t_secs.is_nan() && x.rank() == p.t_secs.rank()
}

proof fn lemma_ends(s: Seq<Point>)
    ensures
        leads(s, earliest(s)),
        trails(s, latest(s)),
    decreases s.len(),
{
    if s.len() > 0 {
        let r = s.drop_last();
        let q = s.last();
        lemma_ends(r);
        assert(s[s.len() - 1] == q);
        assert(s.contains(q));
        assert forall|p: Point|
            #![trigger r.contains(p)]
            #![trigger s.contains(p)]
            s.contains(p) == (r.contains(p) || p == q) by {
            if r.contains(p) {
                let i = choose|i: int| 0 <= i < r.len() && r[i] == p;
                assert(s[i] == p);
            }
            if s.contains(p) && p != q {
                let i = choose|i: int| 0 <= i < s.len() && s[i] == p;
                assert(r[i] == p);
            }
        }
    }
}

/// The time covered does not depend on the order of the readings.
proof fn lemma_same_span(a: Seq<Point>, b: Seq<Point>)
    requires
        same_readings(a, b),
    ensures
        span_of(a).truncated() == span_of(b).truncated(),
{
    lemma_ends(a);
    lemma_ends(b);
    double::lemma_on_grid(0);
    double::lemma_small_integer(0);
    let (x, y) = (earliest(a), earliest(b));
    let (u, v) = (latest(a), latest(b));
    assert(x.rank() == y.rank());
    assert(u.rank() == v.rank());
    assert(x == y || (x.position() == 0 && y.position() == 0));
    assert(u == v || (u.position() == 0 && v.position() == 0));
    assert(double::opposite(x).units() == double::opposite(y).units() || x.is_infinite());
    assert(u.units() == v.units() || u.is_infinite());
    let (d, e) = (
        double::sum(u, double::opposite(x)),
        double::sum(v, double::opposite(y)),
    );
    assert(d == e || (d.position() == 0 && e.position() == 0));
    if d != e {
        let zero = double::of_quotient(0, 1);
        assert(double::larger(d, zero).position() == 0);
        assert(double::larger(e, zero).position() == 0);
        lemma_zero_truncated(double::larger(d, zero));
        lemma_zero_truncated(double::larger(e, zero));
    }
}

proof fn lemma_zero_truncated(x: Double)
    requires
        x.position() == 0,
    ensures
        x.truncated() == 0,
{
    double::lemma_on_grid(0);
    let u = vstd::arithmetic::power2::pow2(double::UNIT as nat) as int;
    vstd::arithmetic::power2::lemma_pow2_pos(double::UNIT as nat);
    assert(0int / u == 0) by (nonlinear_arith)
        requires
            u > 0,
    ;
}

/// A summary is about the newest readings of the whole history, whatever became
/// of the older ones: their number, their lowest and highest level, and the time
/// they cover. While nothing was overwritten it is about the history itself.
pub proof fn the_newest_readings_count(series: Trend, history: Seq<Point>, t: MemoryTrend)
    requires
        series.wf(),
        series.keeps(history),
        describes(series.ring@, t),
    ensures
        t.samples == newest(history).len(),
        is_floor(newest(history), t.floor),
        is_peak(newest(history), t.peak),
        t.window_secs == span_of(newest(history)).truncated(),
        history.len() < CAPACITY ==> describes(history, t),
{
    let s = series.ring@;
    let w = series.window();
    let n = series.next as int;
    assert forall|i: int| 0 <= i < s.len() implies w.contains(#[trigger] s[i]) by {
        if i < n {
            assert(w[i + s.len() - n] == s[i]);
        } else {
            assert(w[i - n] == s[i]);
        }
    }
    assert forall|i: int| 0 <= i < w.len() implies s.contains(#[trigger] w[i]) by {
        if i < s.len() - n {
            assert(w[i] == s[i + n]);
        } else {
            assert(w[i] == s[i - (s.len() - n)]);
        }
    }
    assert(same_readings(s, w));
    lemma_same_span(s, w);
    let i = choose|i: int| 0 <= i < s.len() && #[trigger] s[i].bytes == t.floor;
    let j = choose|j: int| 0 <= j < s.len() && #[trigger] s[j].bytes == t.peak;
    assert(w.contains(s[i]) && w.contains(s[j]));
    let x = choose|x: int| 0 <= x < w.len() && w[x] == s[i];
    let y = choose|y: int| 0 <= y < w.len() && w[y] == s[j];
    assert(w[x].bytes == t.floor && w[y].bytes == t.peak);
    assert forall|k: int| 0 <= k < w.len() implies t.floor <= #[trigger] w[k].bytes <= t.peak by {
        assert(s.contains(w[k]));
        let m = choose|m: int| 0 <= m < s.len() && s[m] == w[k];
        assert(t.floor <= s[m].bytes <= t.peak);
    }
    if history.len() < CAPACITY {
        assert(w =~= s);
    }
}

/// Sample `j` is the floor of its segment: nothing there is lower, and nothing
/// before it there is as low.
pub open spec fn bottoms(s: Seq<Point>, t0: Double, width: Double, j: int) -> bool {
    &&& 0 <= j < s.len()
    &&& forall|i: int|
        0 <= i < s.len() && segment(#[trigger] s[i].t_secs, t0, width) == segment(
            s[j].t_secs,
            t0,
            width,
        ) ==> s[j].bytes <= s[i].bytes && (i < j ==> s[j].bytes < s[i].bytes)
}

/// Every point that the slope is fitted to is a real observation, the floor of
/// its segment.
pub proof fn lemma_lowest_bottoms(s: Seq<Point>, t0: Double, width: Double, k: int)
    ensures
        match lowest(s, t0, width, k) {
            Some(p) => exists|j: int| #[trigger]
                bottoms(s, t0, width, j) && s[j] == p && segment(p.t_secs, t0, width) == k,
            None => forall|i: int|
                0 <= i < s.len() ==> segment(#[trigger] s[i].t_secs, t0, width) != k,
        },
    decreases s.len(),
{
    if s.len() > 0 {
        let r = s.drop_last();
        let n = s.len() - 1;
        let p = s.last();
        lemma_lowest_bottoms(r, t0, width, k);
        match lowest(r, t0, width, k) {
            Some(q) => {
                let j = choose|j: int| #[trigger]
                    bottoms(r, t0, width, j) && r[j] == q && segment(q.t_secs, t0, width) == k;
                assert forall|i: int|
                    0 <= i < s.len() && segment(#[trigger] s[i].t_secs, t0, width)
                        == k implies q.bytes <= s[i].bytes || i == n by {
                    if i < n {
                        assert(r[i] == s[i]);
                    }
                }
                if segment(p.t_secs, t0, width) == k && q.bytes > p.bytes {
                    assert(bottoms(s, t0, width, n as int));
                } else {
                    assert forall|i: int|
                        0 <= i < s.len() && segment(#[trigger] s[i].t_secs, t0, width) == segment(
                            s[j].t_secs,
                            t0,
                            width,
                        ) implies s[j].bytes <= s[i].bytes && (i < j ==> s[j].bytes < s[i].bytes) by {
                        if i < n {
                            assert(r[i] == s[i]);
                        }
                        assert(r[j] == s[j]);
                    }
                    assert(bottoms(s, t0, width, j));
                }
            },
            None => {
                assert forall|i: int| 0 <= i < n implies segment(#[trigger] s[i].t_secs, t0, width)
                    != k by {
                    assert(r[i] == s[i]);
                }
                if segment(p.t_secs, t0, width) == k {
                    assert(bottoms(s, t0, width, n as int));
                }
            },
        }
    }
}

/// The floor of a segment is what [`lowest`] finds.
proof fn lemma_bottoms_is_lowest(s: Seq<Point>, t0: Double, width: Double, j: int)
    requires
        bottoms(s, t0, width, j),
    ensures
        lowest(s, t0, width, segment(s[j].t_secs, t0, width)) == Some(s[j]),
{
    let k = segment(s[j].t_secs, t0, width);
    lemma_lowest_bottoms(s, t0, width, k);
    match lowest(s, t0, width, k) {
        Some(p) => {
            let i = choose|i: int| #[trigger]
                bottoms(s, t0, width, i) && s[i] == p && segment(p.t_secs, t0, width) == k;
            assert(segment(s[i].t_secs, t0, width) == k);
            assert(i == j);
        },
        None => {
            assert(segment(s[j].t_secs, t0, width) != k);
        },
    }
}

proof fn lemma_same_times(a: Seq<Point>, b: Seq<Point>)
    requires
        a.len() == b.len(),
        forall|i: int| 0 <= i < a.len() ==> #[trigger] a[i].t_secs == b[i].t_secs,
    ensures
        earliest(a) == earliest(b),
        latest(a) == latest(b),
    decreases a.len(),
{
    if a.len() > 0 {
        let (x, y) = (a.drop_last(), b.drop_last());
        assert forall|i: int| 0 <= i < x.len() implies #[trigger] x[i].t_secs == y[i].t_secs by {
            assert(a[i].t_secs == b[i].t_secs);
        }
        lemma_same_times(x, y);
        assert(a[a.len() - 1].t_secs == b[a.len() - 1].t_secs);
    }
}

proof fn lemma_same_floors(a: Seq<Point>, b: Seq<Point>, t0: Double, width: Double, k: int)
    requires
        forall|i: int| #[trigger] lowest(a, t0, width, i) == lowest(b, t0, width, i),
    ensures
        floors_before(a, t0, width, k) == floors_before(b, t0, width, k),
    decreases k,
{
    if k > 0 {
        lemma_same_floors(a, b, t0, width, k - 1);
        assert(lowest(a, t0, width, k - 1) == lowest(b, t0, width, k - 1));
    }
}

/// Spikes do not move the slope: whatever a sample above its segment's floor is
/// raised to, the slope stays what it was.
pub proof fn a_spike_leaves_the_slope_alone(s: Seq<Point>, i: int, bytes: u64)
    requires
        0 <= i < s.len(),
        bytes >= s[i].bytes,
        !bottoms(s, earliest(s), width_of(span_of(s)), i),
    ensures
        ({
            let raised = s.update(i, Point { t_secs: s[i].t_secs, bytes });
            slope_of(raised, span_of(raised)) == slope_of(s, span_of(s))
        }),
{
    let raised = s.update(i, Point { t_secs: s[i].t_secs, bytes });
    lemma_same_times(s, raised);
    let (t0, width) = (earliest(s), width_of(span_of(s)));
    assert forall|k: int| #[trigger] lowest(s, t0, width, k) == lowest(raised, t0, width, k) by {
        lemma_lowest_bottoms(s, t0, width, k);
        match lowest(s, t0, width, k) {
            Some(p) => {
                let j = choose|j: int| #[trigger]
                    bottoms(s, t0, width, j) && s[j] == p && segment(p.t_secs, t0, width) == k;
                assert(j != i);
                assert(raised[j] == s[j]);
                assert forall|x: int|
                    0 <= x < raised.len() && segment(#[trigger] raised[x].t_secs, t0, width)
                        == segment(raised[j].t_secs, t0, width) implies raised[j].bytes
                    <= raised[x].bytes && (x < j ==> raised[j].bytes < raised[x].bytes) by {
                    assert(segment(s[x].t_secs, t0, width) == segment(s[j].t_secs, t0, width));
                }
                lemma_bottoms_is_lowest(raised, t0, width, j);
            },
            None => {
                lemma_lowest_bottoms(raised, t0, width, k);
                match lowest(raised, t0, width, k) {
                    Some(q) => {
                        let x = choose|x: int| #[trigger]
                            bottoms(raised, t0, width, x) && raised[x] == q && segment(
                                q.t_secs,
                                t0,
                                width,
                            ) == k;
                        assert(segment(s[x].t_secs, t0, width) != k);
                    },
                    None => {},
                }
            },
        }
    }
    lemma_same_floors(s, raised, t0, width, SEGMENTS as int);
}

proof fn lemma_floors_are_samples(s: Seq<Point>, t0: Double, width: Double, k: int)
    ensures
        forall|i: int|
            0 <= i < floors_before(s, t0, width, k).len() ==> s.contains(
                #[trigger] floors_before(s, t0, width, k)[i],
            ),
    decreases k,
{
    if k > 0 {
        lemma_floors_are_samples(s, t0, width, k - 1);
        lemma_lowest_bottoms(s, t0, width, k - 1);
        let f = floors_before(s, t0, width, k - 1);
        let g = floors_before(s, t0, width, k);
        assert forall|i: int| 0 <= i < g.len() implies s.contains(#[trigger] g[i]) by {
            if i < f.len() {
                assert(g[i] == f[i]);
            }
        }
    }
}

/// The slope is fitted to observations, never to points made up from them.
pub proof fn floors_are_observations(s: Seq<Point>, span: Double)
    ensures
        forall|i: int|
            0 <= i < floors_of(s, span).len() ==> s.contains(#[trigger] floors_of(s, span)[i]),
{
    lemma_floors_are_samples(s, earliest(s), width_of(span), SEGMENTS as int);
}

/// Every point stands at the same level.
pub open spec fn flat(f: Seq<Point>, level: u64) -> bool {
    forall|i: int| 0 <= i < f.len() ==> (#[trigger] f[i]).bytes == level
}

proof fn lemma_flat_levels(f: Seq<Point>, level: u64)
    requires
        flat(f, level),
        0 < f.len() <= 8,
        level < 0x4_0000_0000_0000,
    ensures
        levels(f) == double::of_quotient(f.len() * level as nat, 1),
    decreases f.len(),
{
    let y = level as nat;
    let g = f.drop_last();
    let n = g.len();
    assert(f[f.len() - 1].bytes == level);
    assert(f.len() == n + 1);
    assert((n + 1) * y == n * y + y) by (nonlinear_arith);
    assert((n + 1) * y <= 8 * y) by (nonlinear_arith)
        requires
            n + 1 <= 8,
    ;
    if n == 0 {
        assert(0 * y == 0) by (nonlinear_arith);
        double::lemma_sum_of_integers(0, y);
        assert(levels(g) == nothing());
    } else {
        assert forall|i: int| 0 <= i < g.len() implies (#[trigger] g[i]).bytes == level by {
            assert(g[i] == f[i]);
        }
        lemma_flat_levels(g, level);
        double::lemma_sum_of_integers(n * y, y);
    }
}

proof fn lemma_flat_covariation(f: Seq<Point>, mean_t: Double, level: u64)
    requires
        flat(f, level),
        level < 0x4_0000_0000_0000,
    ensures
        covariation(f, mean_t, double::of_quotient(level as nat, 1)).is_naught(),
    decreases f.len(),
{
    double::lemma_small_integer(0);
    if f.len() > 0 {
        let g = f.drop_last();
        assert forall|i: int| 0 <= i < g.len() implies (#[trigger] g[i]).bytes == level by {
            assert(g[i] == f[i]);
        }
        lemma_flat_covariation(g, mean_t, level);
        assert(f[f.len() - 1].bytes == level);
        let y = double::of_quotient(level as nat, 1);
        double::lemma_small_integer(level as nat);
        let dy = double::sum(y, double::opposite(y));
        assert(dy.is_naught()) by {
            assert(double::opposite(y).units() == -y.units());
        }
        let dt = double::sum(f.last().t_secs, double::opposite(mean_t));
        double::lemma_naught(dy, dt);
        double::lemma_naught(covariation(g, mean_t, y), double::product(dt, dy));
    }
}

pub proof fn lemma_few_floors(s: Seq<Point>, t0: Double, width: Double, k: int)
    requires
        k >= 0,
    ensures
        floors_before(s, t0, width, k).len() <= k,
    decreases k,
{
    if k > 0 {
        lemma_few_floors(s, t0, width, k - 1);
    }
}

/// A window of more than five minutes has segments that can be told apart.
pub proof fn lemma_wide_segments(span: Double)
    requires
        double::of_quotient(300, 1).below(span),
    ensures
        !width_of(span).not_above(double::of_quotient(0, 1)),
{
    double::lemma_small_integer(0);
    double::lemma_small_integer(8);
    double::lemma_small_integer(300);
    let (a, e) = (double::of_quotient(300, 1), double::of_quotient(8, 1));
    if span.is_finite() {
        double::lemma_quotient_keeps_order(a, span, e);
        accuracy::lemma_integers_divide_near(300, 8);
        accuracy::lemma_scale();
        double::lemma_on_grid(0);
        let q = double::quotient(a, e);
        if q.position() == 0 {
            assert(q.units() == 0);
            assert(0 * 8 == 0);
        }
    }
}

/// A high peak over a flat floor is just work: where every segment returns to
/// the same level, below a petabyte, no limit that is not negative is exceeded,
/// however high the spikes in between.
pub proof fn a_flat_floor_is_no_leak(s: Seq<Point>, level: u64, limit: Double)
    requires
        flat(floors_of(s, span_of(s)), level),
        level < 0x4_0000_0000_0000,
        limit.rank() >= 0,
    ensures
        slope_of(s, span_of(s)) matches Some(x) ==> !limit.below(x),
{
    let span = span_of(s);
    let f = floors_of(s, span);
    if slope_of(s, span) is Some {
        lemma_few_floors(s, earliest(s), width_of(span), SEGMENTS as int);
        let n = f.len();
        let y = level as nat;
        lemma_flat_levels(f, level);
        assert(n * y <= 8 * y) by (nonlinear_arith)
            requires
                n <= 8,
        ;
        double::lemma_exact_quotient(y, n);
        let mean_t = double::quotient(times(f), double::of_quotient(n, 1));
        let num = covariation(f, mean_t, double::of_quotient(y, 1));
        let den = variation(f, mean_t);
        lemma_flat_covariation(f, mean_t, level);
        double::lemma_small_integer(3600);
        double::lemma_small_integer(1048576);
        double::lemma_naught(num, den);
        let per_sec = double::quotient(num, den);
        double::lemma_naught(per_sec, double::of_quotient(3600, 1));
        double::lemma_naught(
            double::product(per_sec, double::of_quotient(3600, 1)),
            double::of_quotient(1048576, 1),
        );
    }
}

} // verus!
