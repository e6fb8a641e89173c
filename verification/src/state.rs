//! The state that the audio callbacks, the detection loop and the user interface share.

use std::collections::VecDeque;

use vstd::prelude::*;

use crate::float_bits::{Float32, Float64, Real};
use crate::latency::StreamInstant;
use crate::ranking::{ascending, in_order, law_in_order, sortable, sorted};

verus! {

/// How many measurements are kept.
pub const MAX_MEASUREMENTS: usize = 1000;

/// What the tool is doing.
#[derive(Debug, Clone, Copy, PartialEq, Eq, Structural)]
pub enum AppMode {
    /// Nothing.
    Idle,
    /// Determining the offset of the system itself.
    Calibrating,
    /// Measuring latency.
    Measuring,
}

/// Where the current measurement stands.
#[derive(Debug, Clone, Copy, PartialEq, Eq, Structural)]
pub enum MeasurementPhase {
    /// No measurement is going on.
    Idle,
    /// The probe is requested or playing.
    Playing,
    /// The probe was played and is looked for in the capture.
    Listening,
    /// The probe was found.
    Detected,
}

/// The state shared between the audio callbacks, the detection loop and the user interface.
pub struct SharedState {
    /// What the tool is doing.
    pub mode: AppMode,
    /// Where the current measurement stands.
    pub phase: MeasurementPhase,
    /// The chosen output device, by its place in the list.
    pub output_device_idx: Option<usize>,
    /// The chosen input device, by its place in the list.
    pub input_device_idx: Option<usize>,
    /// The probe should start playing.
    pub probe_play_requested: bool,
    /// The probe is playing.
    pub probe_playing: bool,
    /// The next sample of the probe to play.
    pub probe_play_sample_idx: usize,
    /// How many samples had been captured when the probe started.
    pub emission_write_pos: usize,
    /// When the buffer with the probe's start reaches the converter.
    pub playback_instant: Option<StreamInstant>,
    /// When the buffer with the probe's start was filled.
    pub output_callback_instant: Option<StreamInstant>,
    /// The frame of that buffer at which the probe starts.
    pub playback_frame_offset: u32,
    /// A ring of the samples captured last.
    pub capture_buffer: Vec<Float32>,
    /// How many samples were captured into the ring.
    pub capture_write_pos: usize,
    /// How many samples were captured at all.
    pub capture_sample_counter: u64,
    /// The correlation of the last detection.
    pub last_ncc_peak: Float32,
    /// The latency of the last detection.
    pub last_latency_ms: Option<Float64>,
    /// The output delay of the last detection.
    pub last_output_delay_ms: Option<Float64>,
    /// The lag of the last detection.
    pub last_lag_ms: Option<Float64>,
    /// The latencies of the current calibration.
    pub calibration_measurements: Vec<Float64>,
    /// How many latencies make up a calibration.
    pub calibration_count: usize,
    /// The latency of the system itself.
    pub system_offset_ms: Float64,
    /// The last measurements, the newest at the back.
    pub measurements: VecDeque<Float64>,
    /// How many measurements were made.
    pub measurement_count: u64,
    /// How many times no probe was found in time.
    pub miss_count: u64,
    /// The sample counter when listening began.
    pub phase_start_sample: u64,
    /// How long to listen.
    pub listen_timeout_samples: u64,
    /// How long to pause between probes.
    pub inter_probe_gap_samples: u64,
    /// The output's sample rate.
    pub output_sample_rate: u32,
    /// The input's sample rate.
    pub input_sample_rate: u32,
    /// What went wrong last.
    pub error_message: Option<String>,
    /// Both streams are running.
    pub streams_active: bool,
}

/// Every element is a number.
pub open spec fn all_numbers(s: Seq<Float64>) -> bool {
    forall|i: int| 0 <= i < s.len() ==> !(#[trigger] s[i]).nan()
}

/// No element is negative.
pub open spec fn none_negative(s: Seq<Float64>) -> bool {
    forall|i: int| 0 <= i < s.len() ==> (#[trigger] s[i]).value() >= 0
}

impl SharedState {
    /// The capture ring has room, listening did not begin in the future, as many of the
    /// measurements made are kept as there is room for, and they are non-negative numbers.
    pub open spec fn wf(self) -> bool {
        &&& self.capture_buffer.len() > 0
        &&& self.phase_start_sample <= self.capture_sample_counter
        &&& self.measurements.len() == (if self.measurement_count < MAX_MEASUREMENTS {
            self.measurement_count as int
        } else {
            MAX_MEASUREMENTS as int
        })
        &&& all_numbers(self.measurements@)
        &&& none_negative(self.measurements@)
    }

    /// The state before anything was started, with a ring of ten seconds at 48 kHz.
    pub fn new() -> (r: SharedState)
        ensures
            r.wf(),
            r.mode == AppMode::Idle,
            r.phase == MeasurementPhase::Idle,
            r.output_device_idx is None,
            r.input_device_idx is None,
            !r.probe_play_requested,
            !r.probe_playing,
            r.probe_play_sample_idx == 0,
            r.emission_write_pos == 0,
            r.playback_instant is None,
            r.output_callback_instant is None,
            r.playback_frame_offset == 0,
            r.capture_buffer@ == Seq::new(480_000, |i: int| Float32 { bits: 0 }),
            r.capture_write_pos == 0,
            r.capture_sample_counter == 0,
            r.last_ncc_peak == (Float32 { bits: 0 }),
            r.last_latency_ms is None,
            r.last_output_delay_ms is None,
            r.last_lag_ms is None,
            r.calibration_measurements.len() == 0,
            r.calibration_count == 5,
            r.system_offset_ms == (Float64 { bits: 0 }),
            r.measurements.len() == 0,
            r.measurement_count == 0,
            r.miss_count == 0,
            r.phase_start_sample == 0,
            r.listen_timeout_samples == 240_000,
            r.inter_probe_gap_samples == 48_000,
            r.output_sample_rate == 48_000,
            r.input_sample_rate == 48_000,
            r.error_message is None,
            !r.streams_active,
    {
        let r = SharedState {
            mode: AppMode::Idle,
            phase: MeasurementPhase::Idle,
            output_device_idx: None,
            input_device_idx: None,
            probe_play_requested: false,
            probe_playing: false,
            probe_play_sample_idx: 0,
            emission_write_pos: 0,
            playback_instant: None,
            output_callback_instant: None,
            playback_frame_offset: 0,
            capture_buffer: silence(480_000),
            capture_write_pos: 0,
            capture_sample_counter: 0,
            last_ncc_peak: Float32::zero(),
            last_latency_ms: None,
            last_output_delay_ms: None,
            last_lag_ms: None,
            calibration_measurements: Vec::new(),
            calibration_count: 5,
            system_offset_ms: Float64::zero(),
            measurements: VecDeque::with_capacity(MAX_MEASUREMENTS),
            measurement_count: 0,
            miss_count: 0,
            phase_start_sample: 0,
            listen_timeout_samples: 240_000,
            inter_probe_gap_samples: 48_000,
            output_sample_rate: 48_000,
            input_sample_rate: 48_000,
            error_message: None,
            streams_active: false,
        };
        r
    }

    /// Forgets all measurements and misses.
    pub fn reset_measurements(&mut self)
        ensures
            final(self).measurements@ == Seq::<Float64>::empty(),
            *final(self) == (SharedState {
                measurements: final(self).measurements,
                measurement_count: 0,
                miss_count: 0,
                ..*old(self)
            }),
            old(self).wf() ==> final(self).wf(),
    {
        self.measurements.clear();
        self.measurement_count = 0;
        self.miss_count = 0;
    }

    /// The statistics of the kept measurements, if there are any.
    pub fn stats(&self) -> (r: Option<Stats>)
        requires
            sortable(self.measurements@),
        ensures
            r is None <==> self.measurements.len() == 0,
            r matches Some(stats) ==> {
                &&& stats.sorted@ == in_order(self.measurements@)
                &&& stats.min == stats.sorted[0]
                &&& stats.max == stats.sorted[stats.sorted.len() - 1]
                &&& stats.p50 == percentile_of(stats.sorted@, 50, 100)
                &&& stats.p95 == percentile_of(stats.sorted@, 95, 100)
                &&& stats.count == self.measurement_count
                &&& stats.misses == self.miss_count
                &&& forall|i: int|
                    0 <= i < self.measurements.len() ==> stats.min.value() <= (
                    #[trigger] self.measurements@[i]).value() <= stats.max.value()
            },
    {
        let n: usize = self.measurements.len();
        if n == 0 {
            return None;
        }
        let mut values: Vec<Float64> = Vec::new();
        let mut i: usize = 0;
        while i < n
            invariant
                i <= n,
                n == self.measurements.len(),
                values@ == self.measurements@.take(i as int),
            decreases n - i,
        {
            values.push(self.measurements[i]);
            i += 1;
            proof {
                assert(values@ =~= self.measurements@.take(i as int));
            }
        }
        proof {
            assert(self.measurements@.take(n as int) =~= self.measurements@);
            law_in_order(values@);
            lemma_extremes(self.measurements@);
        }
        let sorted = sorted(&values);
        let p50 = percentile(&sorted, 50, 100);
        let p95 = percentile(&sorted, 95, 100);
        Some(
            Stats {
                min: sorted[0],
                max: sorted[n - 1],
                p50,
                p95,
                count: self.measurement_count,
                misses: self.miss_count,
                sorted,
            },
        )
    }
}

/// What the kept measurements amount to.
pub struct Stats {
    /// The smallest measurement.
    pub min: Float64,
    /// The largest measurement.
    pub max: Float64,
    /// Where the median lies.
    pub p50: Percentile,
    /// Where the 95th percentile lies.
    pub p95: Percentile,
    /// How many measurements were made.
    pub count: u64,
    /// How many times no probe was found in time.
    pub misses: u64,
    /// The kept measurements from the smallest to the largest.
    pub sorted: Vec<Float64>,
}

/// A percentile of a sorted list.
#[derive(Debug, Clone, Copy, PartialEq, Eq, Structural)]
pub enum Percentile {
    /// The list has this element only.
    Single(Float64),
    /// The percentile lies between two elements, or on them where they are the same one.
    Between {
        /// The place of the lower element.
        lower_rank: usize,
        /// The lower element.
        lower: Float64,
        /// The upper element.
        upper: Float64,
    },
}

/// The place of the element at or below `part / whole` of the way through a list.
pub open spec fn lower_rank(len: int, part: int, whole: int) -> int {
    part * (len - 1) / whole
}

/// The place of the element at or above `part / whole` of the way through a list.
pub open spec fn upper_rank(len: int, part: int, whole: int) -> int {
    (part * (len - 1) + whole - 1) / whole
}

/// Where the percentile `part / whole` of a sorted list lies.
pub open spec fn percentile_of(sorted: Seq<Float64>, part: int, whole: int) -> Percentile {
    if sorted.len() == 1 {
        Percentile::Single(sorted[0])
    } else {
        Percentile::Between {
            lower_rank: lower_rank(sorted.len() as int, part, whole) as usize,
            lower: sorted[lower_rank(sorted.len() as int, part, whole)],
            upper: sorted[upper_rank(sorted.len() as int, part, whole)],
        }
    }
}

/// The percentile `part / whole` that lies between two elements in proportion, times `whole`,
/// without rounding.
pub open spec fn interpolated(sorted: Seq<Float64>, part: int, whole: int) -> int {
    let rest = part * (sorted.len() - 1) % whole;
    let lower = sorted[lower_rank(sorted.len() as int, part, whole)].value();
    let upper = sorted[upper_rank(sorted.len() as int, part, whole)].value();
    lower * (whole - rest) + upper * rest
}

/// Where the percentile `part / whole` of a sorted list lies.
pub fn percentile(sorted: &Vec<Float64>, part: u32, whole: u32) -> (r: Percentile)
    requires
        sorted.len() > 0,
        part <= whole,
        whole > 0,
    ensures
        r == percentile_of(sorted@, part as int, whole as int),
{
    let n: usize = sorted.len();
    if n == 1 {
        return Percentile::Single(sorted[0]);
    }
    let last: u128 = (n - 1) as u128;
    proof {
        lemma_ranks(n as int, part as int, whole as int);
        assert(part * last <= u32::MAX * u64::MAX) by (nonlinear_arith)
            requires
                0 <= part <= u32::MAX,
                0 <= last <= u64::MAX,
        ;
    }
    let scaled: u128 = (part as u128) * last;
    let lower_rank: usize = (scaled / (whole as u128)) as usize;
    let upper_rank: usize = ((scaled + (whole as u128) - 1) / (whole as u128)) as usize;
    Percentile::Between { lower_rank, lower: sorted[lower_rank], upper: sorted[upper_rank] }
}

/// The ranks lie within the list; they are the same place where the percentile lies on an element,
/// and neighbours where it does not.
proof fn lemma_ranks(len: int, part: int, whole: int)
    requires
        len > 0,
        0 <= part <= whole,
        whole > 0,
    ensures
        0 <= part * (len - 1) <= whole * (len - 1),
        0 <= lower_rank(len, part, whole) <= upper_rank(len, part, whole) < len,
        upper_rank(len, part, whole) == lower_rank(len, part, whole) + (if part * (len - 1) % whole
            == 0 {
            0int
        } else {
            1int
        }),
{
    let k = part * (len - 1);
    let (q, r) = (k / whole, k % whole);
    let last = len - 1;
    assert(0 <= k <= whole * last) by (nonlinear_arith)
        requires
            0 <= part <= whole,
            last >= 0,
            k == part * last,
    ;
    assert(k == q * whole + r && 0 <= r < whole) by (nonlinear_arith)
        requires
            whole > 0,
            q == k / whole,
            r == k % whole,
    ;
    assert(0 <= q <= last && (r > 0 ==> q < last)) by (nonlinear_arith)
        requires
            whole > 0,
            0 <= k <= whole * last,
            k == q * whole + r,
            0 <= r < whole,
    ;
    let up = (k + whole - 1) / whole;
    assert(up == q + (if r == 0 {
        0int
    } else {
        1int
    })) by (nonlinear_arith)
        requires
            whole > 0,
            k == q * whole + r,
            0 <= r < whole,
            up == (k + whole - 1) / whole,
    ;
}

proof fn lemma_extremes(s: Seq<Float64>)
    requires
        s.len() > 0,
    ensures
        forall|i: int|
            0 <= i < s.len() ==> in_order(s)[0].value() <= (#[trigger] s[i]).value() <= in_order(
                s,
            )[s.len() - 1].value(),
{
    broadcast use vstd::seq_lib::group_to_multiset_ensures;

    law_in_order(s);
    let ordered = in_order(s);
    assert forall|i: int| 0 <= i < s.len() implies ordered[0].value() <= (#[trigger] s[i]).value()
        <= ordered[s.len() - 1].value() by {
        assert(s.contains(s[i]));
        assert(ordered.to_multiset().count(s[i]) > 0);
        assert(ordered.contains(s[i]));
        let k = choose|k: int| 0 <= k < ordered.len() && ordered[k] == s[i];
        assert(ordered[0].value() <= ordered[k].value());
        assert(ordered[k].value() <= ordered[s.len() - 1].value());
    }
}

/// The element below a percentile is not larger than the one above it; both lie among the
/// elements; and a larger percentile, `q / w` against `p / v`, lies no lower.
pub proof fn law_percentiles_ordered(sorted: Seq<Float64>, p: int, v: int, q: int, w: int)
    requires
        ascending(sorted),
        sorted.len() > 0,
        0 <= p <= v,
        0 <= q <= w,
        v > 0,
        w > 0,
        p * w <= q * v,
    ensures
        ({
            let n = sorted.len() as int;
            &&& 0 <= lower_rank(n, p, v) <= upper_rank(n, p, v) < n
            &&& sorted[lower_rank(n, p, v)].value() <= sorted[upper_rank(n, p, v)].value()
            &&& lower_rank(n, p, v) <= lower_rank(n, q, w)
            &&& upper_rank(n, p, v) <= upper_rank(n, q, w)
            &&& sorted[lower_rank(n, p, v)].value() <= sorted[lower_rank(n, q, w)].value()
            &&& sorted[upper_rank(n, p, v)].value() <= sorted[upper_rank(n, q, w)].value()
        }),
{
    let n = sorted.len() as int;
    lemma_ranks(n, p, v);
    lemma_ranks(n, q, w);
    lemma_ranks_grow(n, p, v, q, w);
}

/// The places of a smaller percentile against those of a larger one.
proof fn lemma_ranks_grow(n: int, p: int, v: int, q: int, w: int)
    requires
        n > 0,
        0 <= p <= v,
        0 <= q <= w,
        v > 0,
        w > 0,
        p * w <= q * v,
    ensures
        lower_rank(n, p, v) <= lower_rank(n, q, w),
        lower_rank(n, p, v) == lower_rank(n, q, w) ==> (p * (n - 1) % v) * w <= (q * (n - 1) % w)
            * v,
        upper_rank(n, p, v) <= upper_rank(n, q, w),
{
    let (k, m) = (p * (n - 1), q * (n - 1));
    let (i, r) = (k / v, k % v);
    let (j, t) = (m / w, m % w);
    let last = n - 1;
    assert(k * w <= m * v) by (nonlinear_arith)
        requires
            p * w <= q * v,
            last >= 0,
            k == p * last,
            m == q * last,
    ;
    assert(k == i * v + r && 0 <= r < v) by (nonlinear_arith)
        requires
            v > 0,
            i == k / v,
            r == k % v,
    ;
    assert(m == j * w + t && 0 <= t < w) by (nonlinear_arith)
        requires
            w > 0,
            j == m / w,
            t == m % w,
    ;
    assert(k * w == i * (v * w) + r * w) by (nonlinear_arith)
        requires
            k == i * v + r,
    ;
    assert(m * v == j * (v * w) + t * v) by (nonlinear_arith)
        requires
            m == j * w + t,
    ;
    assert(0 <= r * w && 0 <= t * v < v * w) by (nonlinear_arith)
        requires
            0 <= r,
            0 <= t < w,
            v > 0,
    ;
    let unit = v * w;
    assert(i <= j) by (nonlinear_arith)
        requires
            i * unit + r * w <= j * unit + t * v,
            0 <= r * w,
            0 <= t * v < unit,
    ;
    if i == j {
        assert(r * w <= t * v);
        assert(r > 0 ==> t > 0) by (nonlinear_arith)
            requires
                r * w <= t * v,
                w > 0,
                v > 0,
                t >= 0,
        ;
    }
    lemma_ranks(n, p, v);
    lemma_ranks(n, q, w);
}

/// The rank below is the last place that is not beyond `part / whole` of the way to the last
/// place, the rank above the first that is not before it, and a percentile names the elements
/// there.
pub proof fn law_ranks_enclose_the_fraction(sorted: Seq<Float64>, part: int, whole: int)
    requires
        1 < sorted.len() <= usize::MAX,
        0 <= part <= whole,
        whole > 0,
    ensures
        percentile_of(sorted, part, whole) matches Percentile::Between {
            lower_rank: below,
            lower,
            upper,
        } && {
            let way = part * (sorted.len() - 1);
            &&& below * whole <= way < (below + 1) * whole
            &&& lower == sorted[below as int]
            &&& if below * whole == way {
                upper == lower
            } else {
                upper == sorted[below + 1]
            }
        },
{
    let n = sorted.len() as int;
    lemma_ranks(n, part, whole);
    let k = part * (n - 1);
    let (q, r) = (k / whole, k % whole);
    assert(q * whole <= k < (q + 1) * whole && (q * whole == k <==> r == 0)) by (nonlinear_arith)
        requires
            whole > 0,
            q == k / whole,
            r == k % whole,
    ;
}

/// Both ranks of the percentile 0 are the first place, and both of the percentile 1 the last. In a
/// list of one element every percentile is that element.
pub proof fn law_percentile_ends(sorted: Seq<Float64>, part: int, whole: int)
    requires
        sorted.len() > 0,
        whole > 0,
    ensures
        lower_rank(sorted.len() as int, 0, whole) == 0,
        upper_rank(sorted.len() as int, 0, whole) == 0,
        lower_rank(sorted.len() as int, whole, whole) == sorted.len() - 1,
        upper_rank(sorted.len() as int, whole, whole) == sorted.len() - 1,
        interpolated(sorted, 0, whole) == sorted[0].value() * whole,
        interpolated(sorted, whole, whole) == sorted.last().value() * whole,
        sorted.len() == 1 ==> {
            &&& percentile_of(sorted, part, whole) == Percentile::Single(sorted[0])
            &&& interpolated(sorted, part, whole) == sorted[0].value() * whole
        },
{
    let n = sorted.len() as int;
    let last = n - 1;
    lemma_ranks(n, 0, whole);
    lemma_ranks(n, whole, whole);
    assert(0 * last == 0);
    assert(0int / whole == 0 && 0int % whole == 0) by (nonlinear_arith)
        requires
            whole > 0,
    ;
    assert(whole * last / whole == last && whole * last % whole == 0) by (nonlinear_arith)
        requires
            whole > 0,
            last >= 0,
    ;
    if n == 1 {
        assert(part * last == 0) by (nonlinear_arith)
            requires
                last == 0,
        ;
    }
    lemma_between(sorted[0].value(), sorted[0].value(), 0, whole);
    lemma_between(sorted.last().value(), sorted.last().value(), 0, whole);
}

/// A percentile lies between the elements at its two ranks, and a larger percentile, `q / w`
/// against `p / v`, is not smaller.
pub proof fn law_percentile_grows(sorted: Seq<Float64>, p: int, v: int, q: int, w: int)
    requires
        ascending(sorted),
        sorted.len() > 0,
        0 <= p <= v,
        0 <= q <= w,
        v > 0,
        w > 0,
        p * w <= q * v,
    ensures
        sorted[lower_rank(sorted.len() as int, p, v)].value() * v <= interpolated(sorted, p, v),
        interpolated(sorted, p, v) <= sorted[upper_rank(sorted.len() as int, p, v)].value() * v,
        interpolated(sorted, p, v) * w <= interpolated(sorted, q, w) * v,
{
    let n = sorted.len() as int;
    law_percentiles_ordered(sorted, p, v, q, w);
    lemma_ranks(n, p, v);
    lemma_ranks(n, q, w);
    lemma_ranks_grow(n, p, v, q, w);
    let (r, t) = (p * (n - 1) % v, q * (n - 1) % w);
    assert(0 <= r < v && 0 <= t < w) by (nonlinear_arith)
        requires
            v > 0,
            w > 0,
            r == p * (n - 1) % v,
            t == q * (n - 1) % w,
    ;
    let (i, j) = (lower_rank(n, p, v), lower_rank(n, q, w));
    let (low, up) = (sorted[i].value(), sorted[upper_rank(n, p, v)].value());
    let (base, top) = (sorted[j].value(), sorted[upper_rank(n, q, w)].value());
    let (x, y) = (interpolated(sorted, p, v), interpolated(sorted, q, w));
    lemma_between(low, up, r, v);
    lemma_between(base, top, t, w);
    if i == j && r > 0 {
        assert(r * w > 0) by (nonlinear_arith)
            requires
                r > 0,
                w > 0,
        ;
        assert(t > 0) by (nonlinear_arith)
            requires
                0 < t * v,
                v > 0,
        ;
        assert(up == top);
        let gap = up - low;
        assert(gap * (r * w) <= gap * (t * v)) by (nonlinear_arith)
            requires
                gap >= 0,
                r * w <= t * v,
        ;
        assert(x * w == low * (v * w) + gap * (r * w)) by (nonlinear_arith)
            requires
                x == low * (v - r) + up * r,
                gap == up - low,
        ;
        assert(y * v == low * (v * w) + gap * (t * v)) by (nonlinear_arith)
            requires
                y == low * (w - t) + up * t,
                gap == up - low,
        ;
    } else {
        assert(up <= base);
        assert(x * w <= y * v) by (nonlinear_arith)
            requires
                x <= up * v,
                base * w <= y,
                up <= base,
                v > 0,
                w > 0,
        {
            assert(x * w <= (up * v) * w);
            assert((base * w) * v <= y * v);
            assert((up * v) * w == up * (v * w));
            assert((base * w) * v == base * (v * w));
            assert(v * w > 0);
            assert(up * (v * w) <= base * (v * w));
        }
    }
}

proof fn lemma_between(low: int, high: int, part: int, whole: int)
    requires
        low <= high,
        0 <= part < whole,
    ensures
        low * whole <= low * (whole - part) + high * part <= high * whole,
{
    assert(low * whole <= low * (whole - part) + high * part <= high * whole) by (nonlinear_arith)
        requires
            low <= high,
            0 <= part < whole,
    ;
}

/// `len` samples of silence.
pub fn silence(len: usize) -> (r: Vec<Float32>)
    ensures
        r@ == Seq::new(len as nat, |i: int| Float32 { bits: 0 }),
{
    let r: Vec<Float32> = vec![Float32 { bits: 0 }; len];
    proof {
        assert(r@ =~= Seq::new(len as nat, |i: int| Float32 { bits: 0 }));
    }
    r
}

} // verus!
