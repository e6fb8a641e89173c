//! The decisions of the two-stage probe detection.
//!
//! The coarse stage correlates amplitude envelopes and yields one correlation value per lag. The
//! fine stage correlates the full-rate signals in a narrow window around each promising lag. The
//! correlations themselves are numeric work done by the caller; which stretch of the capture is
//! looked at, which lags are kept, and which match is reported is decided here.

use vstd::prelude::*;

use crate::float_bits::{greater, Float32, Float64, Real};
use crate::ranking::{first_best, is_first_best, law_first_best_unique};

verus! {

/// Envelope samples per second.
pub const ENVELOPE_RATE: u32 = 1000;

/// How many coarse lags are refined at most.
pub const NUM_COARSE_CANDIDATES: usize = 5;

/// Coarse lags this close to a kept one are passed over, in envelope samples.
pub const COARSE_CANDIDATE_MIN_SEPARATION: usize = 200;

/// Envelope samples at the start of a capture that hold the filters' transients.
pub const TRANSIENT_SKIP: usize = 10;

/// The encoding of the least correlation of the best coarse lag: 0.4.
pub const COARSE_NCC_THRESHOLD: u32 = 0x3ecc_cccd;

/// The encoding of the least correlation of a coarse lag that is refined: 0.3.
pub const CANDIDATE_NCC_THRESHOLD: u32 = 0x3e99_999a;

/// The encoding of the least correlation of the best lag in a fine window: 0.3.
pub const FINE_PEAK_THRESHOLD: u64 = 0x3fd3_3333_3333_3333;

/// The encoding of the least correlation of a reported match: 0.92.
pub const FINE_NCC_THRESHOLD: u32 = 0x3f6b_851f;

/// The encoding of the least energy of a template that can be matched: 1e-20.
pub const MIN_TEMPLATE_ENERGY: u64 = 0x3bc7_9ca1_0c92_4223;

pub open spec fn min_of(a: int, b: int) -> int {
    if a < b {
        a
    } else {
        b
    }
}

pub open spec fn distance(a: int, b: int) -> int {
    if a < b {
        b - a
    } else {
        a - b
    }
}

/// The stretch of a capture's envelope that the coarse stage looks at.
pub struct CoarseWindow {
    /// The envelope behind the transients, up to the last sample that some lag can reach.
    pub capture: Vec<Float32>,
    /// The largest lag to try, in envelope samples.
    pub max_lag: usize,
}

/// The largest coarse lag: what was asked for, as far as the capture reaches.
pub open spec fn coarse_max_lag(capture_len: int, template_len: int, requested_lag: int) -> int {
    min_of(requested_lag, capture_len - TRANSIENT_SKIP - template_len)
}

/// Whether the envelopes leave a coarse stage anything to do.
pub open spec fn coarse_possible(capture_len: int, template_len: int, requested_lag: int) -> bool {
    &&& template_len >= 2
    &&& capture_len >= template_len + TRANSIENT_SKIP
    &&& coarse_max_lag(capture_len, template_len, requested_lag) > 0
}

/// `r` is the window of the coarse stage in an envelope, if there is one.
pub open spec fn is_coarse_window(
    env_capture: Seq<Float32>,
    template_len: int,
    requested_lag: int,
    r: Option<CoarseWindow>,
) -> bool {
    if coarse_possible(env_capture.len() as int, template_len, requested_lag) {
        r matches Some(w) && {
            &&& w.max_lag == coarse_max_lag(env_capture.len() as int, template_len, requested_lag)
            &&& w.capture.len() == w.max_lag + template_len
            &&& w.capture@ == env_capture.subrange(
                TRANSIENT_SKIP as int,
                TRANSIENT_SKIP + w.max_lag + template_len,
            )
        }
    } else {
        r is None
    }
}

/// Once a capture fills the coarse window, what is captured later does not change it: envelopes
/// that agree on the skipped samples, the lags asked for and the template give the same window.
pub proof fn law_coarse_window_settles(
    a: Seq<Float32>,
    b: Seq<Float32>,
    template_len: int,
    requested_lag: int,
    r: Option<CoarseWindow>,
    s: Option<CoarseWindow>,
)
    requires
        template_len >= 0,
        requested_lag >= 0,
        TRANSIENT_SKIP + requested_lag + template_len <= a.len(),
        TRANSIENT_SKIP + requested_lag + template_len <= b.len(),
        a.take(TRANSIENT_SKIP + requested_lag + template_len) == b.take(
            TRANSIENT_SKIP + requested_lag + template_len,
        ),
        is_coarse_window(a, template_len, requested_lag, r),
        is_coarse_window(b, template_len, requested_lag, s),
    ensures
        r is Some <==> s is Some,
        r matches Some(v) ==> {
            &&& v.max_lag == requested_lag
            &&& s matches Some(w) && w.max_lag == v.max_lag && w.capture@ == v.capture@
        },
{
    if r is Some {
        let end = TRANSIENT_SKIP + requested_lag + template_len;
        let (v, w) = (r->0, s->0);
        assert(a.take(end).skip(TRANSIENT_SKIP as int) =~= v.capture@);
        assert(b.take(end).skip(TRANSIENT_SKIP as int) =~= w.capture@);
    }
}

/// Every lag that was asked for and at which the template lies within the capture is tried,
/// however little has been captured yet: where there is such a lag but zero, the window reaches it
/// and holds the samples that the template is laid on, ten samples behind the capture's start.
pub proof fn law_every_lag_in_reach_is_tried(
    env_capture: Seq<Float32>,
    template_len: int,
    requested_lag: int,
    r: Option<CoarseWindow>,
    lag: int,
)
    requires
        is_coarse_window(env_capture, template_len, requested_lag, r),
        template_len >= 2,
        requested_lag >= 1,
        10 + 1 + template_len <= env_capture.len(),
        0 <= lag <= requested_lag,
        10 + lag + template_len <= env_capture.len(),
    ensures
        r matches Some(w) && {
            &&& lag <= w.max_lag
            &&& lag + template_len <= w.capture.len()
            &&& forall|k: int|
                0 <= k < template_len ==> #[trigger] w.capture@[lag + k] == env_capture[10 + lag
                    + k]
        },
{
}

/// No lag is tried that was not asked for or at which the template would leave the capture, and
/// the window ends where the template does at its largest lag. There is none where the template
/// has fewer than two samples or no lag but zero is in reach.
pub proof fn law_only_lags_in_reach_are_tried(
    env_capture: Seq<Float32>,
    template_len: int,
    requested_lag: int,
    r: Option<CoarseWindow>,
)
    requires
        is_coarse_window(env_capture, template_len, requested_lag, r),
    ensures
        r matches Some(w) ==> {
            &&& 1 <= w.max_lag <= requested_lag
            &&& 10 + w.max_lag + template_len <= env_capture.len()
            &&& w.capture.len() == w.max_lag + template_len
        },
        template_len < 2 || requested_lag < 1 || env_capture.len() < 10 + 1 + template_len ==> r
            is None,
{
}

/// Cuts the envelope of a capture to the window of the coarse stage.
///
/// There is no window where the capture is shorter than the template and the transients, where
/// the template has fewer than two samples, or where no lag but zero would be tried.
pub fn coarse_window(
    env_capture: &Vec<Float32>,
    template_len: usize,
    requested_lag: usize,
) -> (r: Option<CoarseWindow>)
    ensures
        is_coarse_window(env_capture@, template_len as int, requested_lag as int, r),
{
    let len: usize = env_capture.len();
    if template_len < 2 || len < TRANSIENT_SKIP || len - TRANSIENT_SKIP < template_len {
        return None;
    }
    let room: usize = len - TRANSIENT_SKIP - template_len;
    let max_lag: usize = if requested_lag < room {
        requested_lag
    } else {
        room
    };
    if max_lag == 0 {
        return None;
    }
    let end: usize = TRANSIENT_SKIP + max_lag + template_len;
    let mut capture: Vec<Float32> = Vec::new();
    let mut i: usize = TRANSIENT_SKIP;
    while i < end
        invariant
            TRANSIENT_SKIP <= i <= end <= env_capture.len(),
            capture@ == env_capture@.subrange(TRANSIENT_SKIP as int, i as int),
        decreases end - i,
    {
        capture.push(env_capture[i]);
        proof {
            assert(env_capture@.subrange(TRANSIENT_SKIP as int, i as int).push(
                env_capture@[i as int],
            ) =~= env_capture@.subrange(TRANSIENT_SKIP as int, i + 1));
        }
        i += 1;
    }
    Some(CoarseWindow { capture, max_lag })
}

/// A number above zero.
pub open spec fn positive(x: Float32) -> bool {
    !x.nan() && x.value() > 0
}

/// `lag` is more than `separation` away from every peak.
pub open spec fn clear_of(peaks: Seq<(usize, Float32)>, separation: int, lag: int) -> bool {
    forall|k: int|
        0 <= k < peaks.len() ==> distance(lag, (#[trigger] peaks[k]).0 as int) > separation
}

/// `lag` is the first of the largest values among those clear of the peaks, and positive.
pub open spec fn is_next_peak(
    values: Seq<Float32>,
    peaks: Seq<(usize, Float32)>,
    separation: int,
    lag: int,
) -> bool {
    &&& 0 <= lag < values.len()
    &&& clear_of(peaks, separation, lag)
    &&& positive(values[lag])
    &&& forall|other: int|
        0 <= other < values.len() && clear_of(peaks, separation, other) && !(
        #[trigger] values[other]).nan() ==> {
            &&& values[other].value() <= values[lag].value()
            &&& other < lag ==> values[other].value() < values[lag].value()
        }
}

/// `peaks` are what picking the next peak up to `top_n` times yields.
pub open spec fn is_top_peaks(
    values: Seq<Float32>,
    top_n: int,
    separation: int,
    peaks: Seq<(usize, Float32)>,
) -> bool {
    &&& peaks.len() <= top_n
    &&& forall|k: int|
        0 <= k < peaks.len() ==> {
            &&& is_next_peak(values, peaks.take(k), separation, (#[trigger] peaks[k]).0 as int)
            &&& peaks[k].1 == values[peaks[k].0 as int]
        }
    &&& peaks.len() < top_n ==> forall|lag: int|
        0 <= lag < values.len() && clear_of(peaks, separation, lag) ==> !positive(
            #[trigger] values[lag],
        )
}

/// The lags of the `top_n` largest positive values, each more than `min_separation` from the
/// ones before it, with their values.
pub fn find_top_peaks(
    ncc_values: &Vec<Float32>,
    top_n: usize,
    min_separation: usize,
) -> (peaks: Vec<(usize, Float32)>)
    requires
        ncc_values.len() > 0 || top_n == 0,
    ensures
        is_top_peaks(ncc_values@, top_n as int, min_separation as int, peaks@),
{
    let len: usize = ncc_values.len();
    let mut peaks: Vec<(usize, Float32)> = Vec::new();
    let mut used: Vec<bool> = vec![false; len];
    let mut round: usize = 0;
    while round < top_n
        invariant
            round <= top_n,
            len == ncc_values.len(),
            len > 0 || top_n == 0,
            used.len() == len,
            peaks.len() == round,
            forall|k: int|
                0 <= k < peaks.len() ==> {
                    &&& is_next_peak(
                        ncc_values@,
                        peaks@.take(k),
                        min_separation as int,
                        (#[trigger] peaks[k]).0 as int,
                    )
                    &&& peaks[k].1 == ncc_values[peaks[k].0 as int]
                },
            forall|lag: int|
                0 <= lag < len ==> (#[trigger] used[lag] <==> !clear_of(
                    peaks@,
                    min_separation as int,
                    lag,
                )),
        decreases top_n - round,
    {
        let best: Option<usize> = best_unused(ncc_values, &used);
        match best {
            None => {
                return peaks;
            },
            Some(best_lag) => {
                let ghost before = peaks@;
                let start: usize = if best_lag < min_separation {
                    0
                } else {
                    best_lag - min_separation
                };
                let end: usize = if min_separation > len - 1 - best_lag {
                    len - 1
                } else {
                    best_lag + min_separation
                };
                proof {
                    assert(is_next_peak(
                        ncc_values@,
                        before,
                        min_separation as int,
                        best_lag as int,
                    ));
                }
                peaks.push((best_lag, ncc_values[best_lag]));
                let ghost marked = used@;
                let mut i: usize = start;
                while i <= end
                    invariant
                        start <= i <= end + 1,
                        end < len,
                        used.len() == len,
                        marked.len() == len,
                        forall|lag: int|
                            0 <= lag < len ==> #[trigger] used[lag] == (marked[lag] || start <= lag
                                < i),
                    decreases end + 1 - i,
                {
                    used.set(i, true);
                    i += 1;
                }
                proof {
                    assert forall|k: int| 0 <= k < peaks.len() implies {
                        &&& is_next_peak(
                            ncc_values@,
                            peaks@.take(k),
                            min_separation as int,
                            (#[trigger] peaks[k]).0 as int,
                        )
                        &&& peaks[k].1 == ncc_values[peaks[k].0 as int]
                    } by {
                        if k < before.len() {
                            assert(peaks@.take(k) =~= before.take(k));
                            assert(peaks[k] == before[k]);
                        } else {
                            assert(peaks@.take(k) =~= before);
                        }
                    }
                    assert forall|lag: int| 0 <= lag < len implies (#[trigger] used[lag]
                        <==> !clear_of(peaks@, min_separation as int, lag)) by {
                        assert(marked[lag] <==> !clear_of(before, min_separation as int, lag));
                        assert(peaks@[before.len() as int].0 == best_lag);
                        assert(start <= lag <= end <==> distance(lag, best_lag as int)
                            <= min_separation);
                        if clear_of(before, min_separation as int, lag) && distance(
                            lag,
                            best_lag as int,
                        ) > min_separation {
                            assert forall|k: int| 0 <= k < peaks.len() implies distance(
                                lag,
                                (#[trigger] peaks@[k]).0 as int,
                            ) > min_separation by {
                                if k < before.len() {
                                    assert(peaks@[k] == before[k]);
                                }
                            }
                        }
                        if !clear_of(before, min_separation as int, lag) {
                            let k = choose|k: int|
                                0 <= k < before.len() && distance(
                                    lag,
                                    (#[trigger] before[k]).0 as int,
                                ) <= min_separation;
                            assert(peaks@[k] == before[k]);
                        }
                    }
                }
            },
        }
        round += 1;
    }
    peaks
}

/// The first of the largest unused values, where that is positive.
fn best_unused(values: &Vec<Float32>, used: &Vec<bool>) -> (best: Option<usize>)
    requires
        values.len() == used.len(),
    ensures
        best matches Some(b) ==> {
            &&& b < values.len()
            &&& !used[b as int]
            &&& positive(values[b as int])
            &&& forall|other: int|
                0 <= other < values.len() && !used[other] && !(#[trigger] values[other]).nan() ==> {
                    &&& values[other].value() <= values[b as int].value()
                    &&& other < b ==> values[other].value() < values[b as int].value()
                }
        },
        best is None ==> forall|other: int|
            0 <= other < values.len() && !used[other] ==> !positive(#[trigger] values[other]),
{
    let zero: Float32 = Float32::zero();
    let mut best: Option<usize> = None;
    let mut lag: usize = 0;
    while lag < values.len()
        invariant
            lag <= values.len(),
            values.len() == used.len(),
            !zero.nan(),
            zero.value() == 0,
            best matches Some(b) ==> {
                &&& b < lag
                &&& !used[b as int]
                &&& positive(values[b as int])
                &&& forall|other: int|
                    0 <= other < lag && !used[other] && !(#[trigger] values[other]).nan() ==> {
                        &&& values[other].value() <= values[b as int].value()
                        &&& other < b ==> values[other].value() < values[b as int].value()
                    }
            },
            best is None ==> forall|other: int|
                0 <= other < lag && !used[other] ==> !positive(#[trigger] values[other]),
        decreases values.len() - lag,
    {
        if !used[lag] {
            let floor: Float32 = match best {
                Some(b) => values[b],
                None => zero,
            };
            if values[lag].exceeds(floor) {
                best = Some(lag);
            }
        }
        lag += 1;
    }
    best
}

/// A peak is at least as large as every later one.
pub proof fn law_peaks_descend(
    values: Seq<Float32>,
    top_n: int,
    separation: int,
    peaks: Seq<(usize, Float32)>,
    i: int,
    j: int,
)
    requires
        is_top_peaks(values, top_n, separation, peaks),
        0 <= i <= j < peaks.len(),
    ensures
        peaks[i].1.value() >= peaks[j].1.value(),
        positive(peaks[j].1),
{
    let late = peaks[j].0 as int;
    assert(is_next_peak(values, peaks.take(i), separation, peaks[i].0 as int));
    assert(is_next_peak(values, peaks.take(j), separation, late));
    assert forall|k: int| 0 <= k < peaks.take(i).len() implies distance(
        late,
        (#[trigger] peaks.take(i)[k]).0 as int,
    ) > separation by {
        assert(peaks.take(i)[k] == peaks.take(j)[k]);
    }
    assert(clear_of(peaks.take(i), separation, late));
    assert(values[late] == peaks[j].1);
}

/// Two peaks are more than the separation apart.
pub proof fn law_peaks_apart(
    values: Seq<Float32>,
    top_n: int,
    separation: int,
    peaks: Seq<(usize, Float32)>,
    i: int,
    j: int,
)
    requires
        is_top_peaks(values, top_n, separation, peaks),
        0 <= i < peaks.len(),
        0 <= j < peaks.len(),
        i != j,
    ensures
        distance(peaks[i].0 as int, peaks[j].0 as int) > separation,
{
    let (early, late) = if i < j {
        (i, j)
    } else {
        (j, i)
    };
    assert(is_next_peak(values, peaks.take(late), separation, peaks[late].0 as int));
    assert(peaks.take(late)[early] == peaks[early]);
}

/// The first peak is the largest number of all, and there is one wherever some number is positive.
pub proof fn law_first_peak_is_largest(
    values: Seq<Float32>,
    top_n: int,
    separation: int,
    peaks: Seq<(usize, Float32)>,
    lag: int,
)
    requires
        is_top_peaks(values, top_n, separation, peaks),
        top_n > 0,
        0 <= lag < values.len(),
        positive(values[lag]),
    ensures
        peaks.len() > 0,
        values[lag].value() <= peaks[0].1.value(),
{
    if peaks.len() == 0 {
        assert(clear_of(peaks, separation, lag));
    } else {
        assert(is_next_peak(values, peaks.take(0), separation, peaks[0].0 as int));
        assert(clear_of(peaks.take(0), separation, lag));
    }
}

/// A number that is larger than a peak, or as large and further left, lies within the separation
/// of an earlier peak.
pub proof fn law_larger_values_lie_near_earlier_peaks(
    values: Seq<Float32>,
    top_n: int,
    separation: int,
    peaks: Seq<(usize, Float32)>,
    k: int,
    lag: int,
)
    requires
        is_top_peaks(values, top_n, separation, peaks),
        0 <= k < peaks.len(),
        0 <= lag < values.len(),
        !values[lag].nan(),
        values[lag].value() > peaks[k].1.value() || (values[lag].value() == peaks[k].1.value()
            && lag < peaks[k].0),
    ensures
        exists|j: int|
            0 <= j < k && -separation <= lag - (#[trigger] peaks[j]).0 <= separation,
{
    let before = peaks.take(k);
    assert(is_next_peak(values, before, separation, peaks[k].0 as int));
    assert(values[peaks[k].0 as int] == peaks[k].1);
    assert(!clear_of(before, separation, lag));
    let j = choose|j: int|
        0 <= j < before.len() && distance(lag, (#[trigger] before[j]).0 as int) <= separation;
    assert(before[j] == peaks[j]);
}

/// Peaks are positive values at their places, no two of them within the separation. There are as
/// many as asked for, unless every positive value lies within the separation of one.
pub proof fn law_peaks_exhaust_the_values(
    values: Seq<Float32>,
    top_n: int,
    separation: int,
    peaks: Seq<(usize, Float32)>,
)
    requires
        is_top_peaks(values, top_n, separation, peaks),
    ensures
        peaks.len() <= top_n,
        forall|k: int|
            0 <= k < peaks.len() ==> {
                &&& (#[trigger] peaks[k]).0 < values.len()
                &&& peaks[k].1 == values[peaks[k].0 as int]
                &&& !peaks[k].1.nan()
                &&& peaks[k].1.value() > 0
            },
        forall|i: int, j: int|
            0 <= i < j < peaks.len() ==> (#[trigger] peaks[i]).0 + separation < (
            #[trigger] peaks[j]).0 || peaks[j].0 + separation < peaks[i].0,
        peaks.len() < top_n ==> forall|lag: int|
            0 <= lag < values.len() && !(#[trigger] values[lag]).nan() && values[lag].value() > 0
                ==> exists|k: int|
                0 <= k < peaks.len() && -separation <= lag - (#[trigger] peaks[k]).0 <= separation,
{
    assert forall|k: int| 0 <= k < peaks.len() implies {
        &&& (#[trigger] peaks[k]).0 < values.len()
        &&& peaks[k].1 == values[peaks[k].0 as int]
        &&& !peaks[k].1.nan()
        &&& peaks[k].1.value() > 0
    } by {
        assert(is_next_peak(values, peaks.take(k), separation, peaks[k].0 as int));
    }
    assert forall|i: int, j: int| 0 <= i < j < peaks.len() implies (#[trigger] peaks[i]).0
        + separation < (#[trigger] peaks[j]).0 || peaks[j].0 + separation < peaks[i].0 by {
        law_peaks_apart(values, top_n, separation, peaks, i, j);
    }
    if peaks.len() < top_n {
        assert forall|lag: int|
            0 <= lag < values.len() && !(#[trigger] values[lag]).nan() && values[lag].value()
                > 0 implies exists|k: int|
            0 <= k < peaks.len() && -separation <= lag - (#[trigger] peaks[k]).0
                <= separation by {
            assert(positive(values[lag]));
            assert(!clear_of(peaks, separation, lag));
            let k = choose|k: int|
                0 <= k < peaks.len() && distance(lag, (#[trigger] peaks[k]).0 as int)
                    <= separation;
            assert(-separation <= lag - peaks[k].0 <= separation);
        }
    }
}

/// The peaks of given values are determined.
pub proof fn law_peaks_unique(
    values: Seq<Float32>,
    top_n: int,
    separation: int,
    a: Seq<(usize, Float32)>,
    b: Seq<(usize, Float32)>,
)
    requires
        is_top_peaks(values, top_n, separation, a),
        is_top_peaks(values, top_n, separation, b),
    ensures
        a == b,
{
    lemma_peaks_agree(values, top_n, separation, a, b, min_of(a.len() as int, b.len() as int));
    if a.len() <= b.len() {
        lemma_peaks_no_longer(values, top_n, separation, a, b);
    } else {
        lemma_peaks_agree(values, top_n, separation, b, a, b.len() as int);
        lemma_peaks_no_longer(values, top_n, separation, b, a);
    }
    assert(a =~= b);
}

proof fn lemma_peaks_agree(
    values: Seq<Float32>,
    top_n: int,
    separation: int,
    a: Seq<(usize, Float32)>,
    b: Seq<(usize, Float32)>,
    n: int,
)
    requires
        is_top_peaks(values, top_n, separation, a),
        is_top_peaks(values, top_n, separation, b),
        0 <= n <= a.len(),
        n <= b.len(),
    ensures
        a.take(n) == b.take(n),
        forall|k: int| 0 <= k < n ==> a[k] == b[k],
    decreases n,
{
    if n > 0 {
        lemma_peaks_agree(values, top_n, separation, a, b, n - 1);
        let (x, y) = (a[n - 1].0 as int, b[n - 1].0 as int);
        assert(is_next_peak(values, a.take(n - 1), separation, x));
        assert(is_next_peak(values, b.take(n - 1), separation, y));
        assert(values[x].value() <= values[y].value());
        assert(values[y].value() <= values[x].value());
        assert(x == y);
    }
    assert(a.take(n) =~= b.take(n));
}

proof fn lemma_peaks_no_longer(
    values: Seq<Float32>,
    top_n: int,
    separation: int,
    a: Seq<(usize, Float32)>,
    b: Seq<(usize, Float32)>,
)
    requires
        is_top_peaks(values, top_n, separation, a),
        is_top_peaks(values, top_n, separation, b),
        a.len() <= b.len(),
        a.take(a.len() as int) == b.take(a.len() as int),
    ensures
        a.len() == b.len(),
{
    let k = a.len() as int;
    assert(a.take(k) =~= a);
    if k < b.len() {
        assert(is_next_peak(values, b.take(k), separation, b[k].0 as int));
        assert(positive(values[b[k].0 as int]));
    }
}

/// Both are numbers and the first is the smaller.
pub open spec fn below<T: Real>(x: T, threshold: T) -> bool {
    greater(threshold, x)
}

/// A coarse lag that the fine stage should look at.
#[derive(Clone, Copy, Debug, PartialEq, Eq, Structural)]
pub struct CoarseCandidate {
    /// Envelope samples from the start of the capture, the skipped ones included.
    pub lag: usize,
    /// The envelope correlation at this lag.
    pub ncc: Float32,
}

/// The peaks before the first that is too small to refine, counted from the capture's start.
pub open spec fn are_candidates(
    peaks: Seq<(usize, Float32)>,
    candidates: Seq<CoarseCandidate>,
) -> bool {
    &&& candidates.len() <= peaks.len()
    &&& forall|i: int|
        0 <= i < candidates.len() ==> {
            &&& (#[trigger] candidates[i]).lag == peaks[i].0 + TRANSIENT_SKIP
            &&& candidates[i].ncc == peaks[i].1
            &&& !below(peaks[i].1, Float32 { bits: CANDIDATE_NCC_THRESHOLD })
        }
    &&& candidates.len() < peaks.len() ==> below(
        peaks[candidates.len() as int].1,
        Float32 { bits: CANDIDATE_NCC_THRESHOLD },
    )
}

/// The peaks of a coarse stage show no probe.
pub open spec fn coarse_rejected(peaks: Seq<(usize, Float32)>) -> bool {
    peaks.len() == 0 || below(peaks[0].1, Float32 { bits: COARSE_NCC_THRESHOLD })
}

/// `r` are the candidates that the correlations of a coarse stage yield, if they show a probe.
pub open spec fn is_coarse_result(
    ncc_values: Seq<Float32>,
    r: Option<Seq<CoarseCandidate>>,
) -> bool {
    exists|peaks: Seq<(usize, Float32)>|
        {
            &&& #[trigger] is_top_peaks(
                ncc_values,
                NUM_COARSE_CANDIDATES as int,
                COARSE_CANDIDATE_MIN_SEPARATION as int,
                peaks,
            )
            &&& r is None <==> coarse_rejected(peaks)
            &&& r matches Some(c) ==> are_candidates(peaks, c)
        }
}

/// What the correlations of a coarse stage yield is determined.
pub proof fn law_coarse_result_unique(
    ncc_values: Seq<Float32>,
    a: Option<Seq<CoarseCandidate>>,
    b: Option<Seq<CoarseCandidate>>,
)
    requires
        is_coarse_result(ncc_values, a),
        is_coarse_result(ncc_values, b),
    ensures
        a == b,
{
    let n = NUM_COARSE_CANDIDATES as int;
    let separation = COARSE_CANDIDATE_MIN_SEPARATION as int;
    let p = choose|p: Seq<(usize, Float32)>|
        {
            &&& #[trigger] is_top_peaks(ncc_values, n, separation, p)
            &&& a is None <==> coarse_rejected(p)
            &&& a matches Some(c) ==> are_candidates(p, c)
        };
    let q = choose|q: Seq<(usize, Float32)>|
        {
            &&& #[trigger] is_top_peaks(ncc_values, n, separation, q)
            &&& b is None <==> coarse_rejected(q)
            &&& b matches Some(c) ==> are_candidates(q, c)
        };
    law_peaks_unique(ncc_values, n, separation, p, q);
    if a is Some {
        let (c, d) = (a->0, b->0);
        if c.len() < d.len() {
            assert(d[c.len() as int].ncc == p[c.len() as int].1);
        }
        if d.len() < c.len() {
            assert(c[d.len() as int].ncc == p[d.len() as int].1);
        }
        assert forall|i: int| 0 <= i < c.len() implies c[i] == d[i] by {
            assert(c[i].lag == d[i].lag && c[i].ncc == d[i].ncc);
        }
        assert(c =~= d);
    }
}

/// A candidate's lag is one of those that were tried, counted from the capture's start.
pub proof fn law_candidates_were_tried(
    ncc_values: Seq<Float32>,
    candidates: Seq<CoarseCandidate>,
    i: int,
)
    requires
        is_coarse_result(ncc_values, Some(candidates)),
        0 <= i < candidates.len(),
    ensures
        TRANSIENT_SKIP <= candidates[i].lag < ncc_values.len() + TRANSIENT_SKIP,
        candidates[i].ncc == ncc_values[candidates[i].lag - TRANSIENT_SKIP],
{
    let separation = COARSE_CANDIDATE_MIN_SEPARATION as int;
    let peaks = choose|peaks: Seq<(usize, Float32)>|
        {
            &&& #[trigger] is_top_peaks(
                ncc_values,
                NUM_COARSE_CANDIDATES as int,
                separation,
                peaks,
            )
            &&& !coarse_rejected(peaks)
            &&& are_candidates(peaks, candidates)
        };
    assert(is_next_peak(ncc_values, peaks.take(i), separation, peaks[i].0 as int));
    assert(candidates[i].lag == peaks[i].0 + TRANSIENT_SKIP);
}

/// The numbers 0.3 and 0.4 are positive, and the first is the smaller.
proof fn lemma_thresholds()
    ensures
        !(Float32 { bits: 0x3e99_999a }).nan(),
        !(Float32 { bits: 0x3ecc_cccd }).nan(),
        0 < (Float32 { bits: 0x3e99_999a }).value() < (Float32 { bits: 0x3ecc_cccd }).value(),
{
    let steps = crate::float_bits::FRACTION_STEPS_32 as nat;
    crate::float_bits::lemma_scaled_magnitude_increases(0, 0x3e99_999a, steps);
    crate::float_bits::lemma_scaled_magnitude_increases(0x3e99_999a, 0x3ecc_cccd, steps);
}

/// A coarse stage fails exactly where no lag correlates at 0.4 or better.
pub proof fn law_coarse_stage_needs_a_good_lag(
    ncc_values: Seq<Float32>,
    r: Option<Seq<CoarseCandidate>>,
)
    requires
        is_coarse_result(ncc_values, r),
    ensures
        r is Some <==> exists|lag: int|
            0 <= lag < ncc_values.len() && !(#[trigger] ncc_values[lag]).nan()
                && ncc_values[lag].value() >= (Float32 { bits: 0x3ecc_cccd }).value(),
{
    lemma_thresholds();
    let n = NUM_COARSE_CANDIDATES as int;
    let separation = COARSE_CANDIDATE_MIN_SEPARATION as int;
    let good = (Float32 { bits: 0x3ecc_cccd }).value();
    let peaks = choose|p: Seq<(usize, Float32)>|
        {
            &&& #[trigger] is_top_peaks(ncc_values, n, separation, p)
            &&& r is None <==> coarse_rejected(p)
            &&& r matches Some(c) ==> are_candidates(p, c)
        };
    law_peaks_exhaust_the_values(ncc_values, n, separation, peaks);
    if r is Some {
        let lag = peaks[0].0 as int;
        assert(ncc_values[lag].value() >= good);
    } else {
        assert forall|lag: int|
            0 <= lag < ncc_values.len() && !(#[trigger] ncc_values[lag]).nan() implies ncc_values[lag].value()
            < good by {
            if ncc_values[lag].value() > 0 {
                law_first_peak_is_largest(ncc_values, n, separation, peaks, lag);
            }
        }
    }
}

/// The candidates are five at most, the better ones first, each at a lag that correlates at 0.3 or
/// better, and no two within 200 lags of each other. Where there are fewer than five, every lag
/// that correlates so lies within 200 of one.
pub proof fn law_candidates_cover_the_good_lags(
    ncc_values: Seq<Float32>,
    candidates: Seq<CoarseCandidate>,
)
    requires
        is_coarse_result(ncc_values, Some(candidates)),
    ensures
        1 <= candidates.len() <= 5,
        forall|i: int|
            0 <= i < candidates.len() ==> {
                &&& 10 <= (#[trigger] candidates[i]).lag < ncc_values.len() + 10
                &&& candidates[i].ncc == ncc_values[candidates[i].lag - 10]
                &&& !candidates[i].ncc.nan()
                &&& candidates[i].ncc.value() >= (Float32 { bits: 0x3e99_999a }).value()
            },
        forall|i: int, j: int|
            0 <= i < j < candidates.len() ==> {
                &&& (#[trigger] candidates[i]).ncc.value() >= (#[trigger] candidates[j]).ncc.value()
                &&& candidates[i].lag + 200 < candidates[j].lag || candidates[j].lag + 200
                    < candidates[i].lag
            },
        candidates.len() < 5 ==> forall|lag: int|
            0 <= lag < ncc_values.len() && !(#[trigger] ncc_values[lag]).nan()
                && ncc_values[lag].value() >= (Float32 { bits: 0x3e99_999a }).value()
                ==> exists|k: int|
                0 <= k < candidates.len() && -200 <= lag + 10 - (#[trigger] candidates[k]).lag
                    <= 200,
        forall|lag: int|
            0 <= lag < ncc_values.len() && !(#[trigger] ncc_values[lag]).nan()
                ==> ncc_values[lag].value() <= candidates[0].ncc.value(),
{
    lemma_thresholds();
    let n = NUM_COARSE_CANDIDATES as int;
    let separation = COARSE_CANDIDATE_MIN_SEPARATION as int;
    let fair = (Float32 { bits: 0x3e99_999a }).value();
    let peaks = choose|p: Seq<(usize, Float32)>|
        {
            &&& #[trigger] is_top_peaks(ncc_values, n, separation, p)
            &&& !coarse_rejected(p)
            &&& are_candidates(p, candidates)
        };
    law_peaks_exhaust_the_values(ncc_values, n, separation, peaks);
    assert(candidates.len() >= 1) by {
        assert(!below(peaks[0].1, Float32 { bits: 0x3e99_999a }));
    }
    assert forall|i: int| 0 <= i < candidates.len() implies {
        &&& 10 <= (#[trigger] candidates[i]).lag < ncc_values.len() + 10
        &&& candidates[i].ncc == ncc_values[candidates[i].lag - 10]
        &&& !candidates[i].ncc.nan()
        &&& candidates[i].ncc.value() >= fair
    } by {
        assert(peaks[i].0 < ncc_values.len());
    }
    assert forall|i: int, j: int| 0 <= i < j < candidates.len() implies {
        &&& (#[trigger] candidates[i]).ncc.value() >= (#[trigger] candidates[j]).ncc.value()
        &&& candidates[i].lag + 200 < candidates[j].lag || candidates[j].lag + 200
            < candidates[i].lag
    } by {
        law_peaks_descend(ncc_values, n, separation, peaks, i, j);
        assert(peaks[i].0 + separation < peaks[j].0 || peaks[j].0 + separation < peaks[i].0);
    }
    if candidates.len() < 5 {
        assert forall|lag: int|
            0 <= lag < ncc_values.len() && !(#[trigger] ncc_values[lag]).nan()
                && ncc_values[lag].value() >= fair implies exists|k: int|
            0 <= k < candidates.len() && -200 <= lag + 10 - (#[trigger] candidates[k]).lag
                <= 200 by {
            let c = candidates.len() as int;
            let k = if c < peaks.len() {
                law_larger_values_lie_near_earlier_peaks(
                    ncc_values,
                    n,
                    separation,
                    peaks,
                    c,
                    lag,
                );
                choose|k: int|
                    0 <= k < c && -separation <= lag - (#[trigger] peaks[k]).0 <= separation
            } else {
                choose|k: int|
                    0 <= k < peaks.len() && -separation <= lag - (#[trigger] peaks[k]).0
                        <= separation
            };
            assert(candidates[k].lag == peaks[k].0 + 10);
        }
    }
    assert forall|lag: int|
        0 <= lag < ncc_values.len() && !(#[trigger] ncc_values[lag]).nan() implies ncc_values[lag].value()
        <= candidates[0].ncc.value() by {
        if ncc_values[lag].value() > 0 {
            law_first_peak_is_largest(ncc_values, n, separation, peaks, lag);
        }
    }
}

/// The lags that the fine stage should look at, the best one first, or nothing where the
/// envelopes do not match well enough at any lag.
pub fn coarse_candidates(ncc_values: &Vec<Float32>) -> (r: Option<Vec<CoarseCandidate>>)
    requires
        0 < ncc_values.len() <= usize::MAX - TRANSIENT_SKIP,
    ensures
        is_coarse_result(
            ncc_values@,
            match r {
                Some(c) => Some(c@),
                None => None,
            },
        ),
        r matches Some(c) ==> c.len() > 0,
{
    let peaks = find_top_peaks(ncc_values, NUM_COARSE_CANDIDATES, COARSE_CANDIDATE_MIN_SEPARATION);
    let accept: Float32 = Float32 { bits: COARSE_NCC_THRESHOLD };
    let refine: Float32 = Float32 { bits: CANDIDATE_NCC_THRESHOLD };
    if peaks.len() == 0 || accept.exceeds(peaks[0].1) {
        assert(coarse_rejected(peaks@));
        return None;
    }
    let mut candidates: Vec<CoarseCandidate> = Vec::new();
    let mut i: usize = 0;
    while i < peaks.len() && !refine.exceeds(peaks[i].1)
        invariant
            i <= peaks.len(),
            ncc_values.len() <= usize::MAX - TRANSIENT_SKIP,
            refine == (Float32 { bits: CANDIDATE_NCC_THRESHOLD }),
            is_top_peaks(
                ncc_values@,
                NUM_COARSE_CANDIDATES as int,
                COARSE_CANDIDATE_MIN_SEPARATION as int,
                peaks@,
            ),
            candidates.len() == i,
            forall|k: int|
                0 <= k < i ==> {
                    &&& (#[trigger] candidates[k]).lag == peaks[k].0 + TRANSIENT_SKIP
                    &&& candidates[k].ncc == peaks[k].1
                    &&& !below(peaks[k].1, Float32 { bits: CANDIDATE_NCC_THRESHOLD })
                },
        decreases peaks.len() - i,
    {
        proof {
            let lag = peaks[i as int].0;
            assert(is_next_peak(
                ncc_values@,
                peaks@.take(i as int),
                COARSE_CANDIDATE_MIN_SEPARATION as int,
                lag as int,
            ));
        }
        candidates.push(CoarseCandidate { lag: peaks[i].0 + TRANSIENT_SKIP, ncc: peaks[i].1 });
        i += 1;
    }
    proof {
        if candidates.len() == 0 {
            let steps = crate::float_bits::FRACTION_STEPS_32 as nat;
            assert(accept.magnitude() == COARSE_NCC_THRESHOLD);
            assert(refine.magnitude() == CANDIDATE_NCC_THRESHOLD);
            crate::float_bits::lemma_scaled_magnitude_increases(
                refine.magnitude(),
                accept.magnitude(),
                steps,
            );
            assert(refine.value() < accept.value());
            assert(below(peaks[0].1, refine));
            assert(!below(peaks[0].1, accept));
        }
        assert(are_candidates(peaks@, candidates@));
    }
    Some(candidates)
}

/// The half-width of the fine stage's window in samples: ten milliseconds.
pub fn fine_margin(sample_rate: u32) -> (r: usize)
    ensures
        r == sample_rate as int / 100,
{
    (sample_rate / 100) as usize
}

/// The full-rate lags that the fine stage tries, both ends included.
#[derive(Clone, Copy, Debug, PartialEq, Eq, Structural)]
pub struct FineWindow {
    /// The first lag.
    pub start: usize,
    /// The last lag.
    pub end: usize,
}

pub open spec fn fine_start(coarse_lag: int, margin: int) -> int {
    if coarse_lag < margin {
        0
    } else {
        coarse_lag - margin
    }
}

pub open spec fn fine_end(
    coarse_lag: int,
    margin: int,
    capture_len: int,
    template_len: int,
) -> int {
    min_of(
        coarse_lag + margin,
        if capture_len < template_len {
            0
        } else {
            capture_len - template_len
        },
    )
}

/// The window of the fine stage around a coarse lag, cut to the lags at which the template lies
/// within the capture.
///
/// There is none where fewer than two lags are left, or where the template is empty or silent.
pub open spec fn fine_window_of(
    capture_len: int,
    template_len: int,
    coarse_lag: int,
    margin: int,
    template_energy: Float64,
) -> Option<FineWindow> {
    let start = fine_start(coarse_lag, margin);
    let end = fine_end(coarse_lag, margin, capture_len, template_len);
    if template_len > 0 && start < end && !below(
        template_energy,
        Float64 { bits: MIN_TEMPLATE_ENERGY },
    ) {
        Some(FineWindow { start: start as usize, end: end as usize })
    } else {
        None
    }
}

/// A fine window holds exactly the lags within the margin of the coarse lag at which the template
/// lies within the capture. There is none where the template is empty or its energy below 1e-20,
/// or where fewer than two such lags are left.
pub proof fn law_fine_window_holds_the_lags_around(
    capture_len: int,
    template_len: int,
    coarse_lag: int,
    margin: int,
    template_energy: Float64,
)
    requires
        0 <= capture_len <= usize::MAX,
        template_len >= 0,
        coarse_lag >= 0,
        margin >= 0,
    ensures
        ({
            let r = fine_window_of(capture_len, template_len, coarse_lag, margin, template_energy);
            let faint = greater(Float64 { bits: 0x3bc7_9ca1_0c92_4223 }, template_energy);
            &&& r matches Some(w) ==> {
                &&& template_len > 0 && !faint
                &&& w.start < w.end
                &&& forall|lag: int|
                    lag >= 0 ==> (#[trigger] in_window(w, lag) <==> coarse_lag - margin <= lag
                        <= coarse_lag + margin && lag + template_len <= capture_len)
            }
            &&& r is None ==> template_len == 0 || faint || forall|lag: int|
                lag >= 1 && coarse_lag - margin < lag <= coarse_lag + margin ==> #[trigger] (lag
                    + template_len) > capture_len
        }),
{
}

/// The lag is one of the window's.
pub open spec fn in_window(w: FineWindow, lag: int) -> bool {
    w.start <= lag <= w.end
}

/// The window of the fine stage around a coarse lag. At each of its lags the template lies within
/// the capture.
pub fn fine_window(
    capture_len: usize,
    template_len: usize,
    coarse_lag: usize,
    margin: usize,
    template_energy: Float64,
) -> (r: Option<FineWindow>)
    ensures
        r == fine_window_of(
            capture_len as int,
            template_len as int,
            coarse_lag as int,
            margin as int,
            template_energy,
        ),
        r matches Some(w) ==> w.start < w.end && w.end + template_len <= capture_len,
{
    let start: usize = if coarse_lag < margin {
        0
    } else {
        coarse_lag - margin
    };
    let last: usize = if capture_len < template_len {
        0
    } else {
        capture_len - template_len
    };
    let end: usize = if last < coarse_lag || last - coarse_lag < margin {
        last
    } else {
        coarse_lag + margin
    };
    let faintest: Float64 = Float64 { bits: MIN_TEMPLATE_ENERGY };
    if start >= end || template_len == 0 || faintest.exceeds(template_energy) {
        None
    } else {
        Some(FineWindow { start, end })
    }
}

/// The best lag of a fine window.
#[derive(Clone, Copy, Debug, PartialEq, Eq)]
pub struct FinePeak {
    /// The position in the window.
    pub index: usize,
    /// The correlation there.
    pub ncc: Float64,
    /// The correlations on both sides, where there are two sides to interpolate between.
    pub neighbours: Option<(Float64, Float64)>,
}

/// `r` is where the correlations of a fine window peak, if they peak high enough.
pub open spec fn is_fine_peak(ncc_values: Seq<Float64>, r: Option<FinePeak>) -> bool {
    exists|best: int| #[trigger]
        is_first_best(ncc_values, best) && if below(
            ncc_values[best],
            Float64 { bits: FINE_PEAK_THRESHOLD },
        ) {
            r is None
        } else {
            r matches Some(peak) && {
                &&& peak.index == best
                &&& peak.ncc == ncc_values[best]
                &&& peak.neighbours == (if 0 < best < ncc_values.len() - 1 {
                    Some((ncc_values[best - 1], ncc_values[best + 1]))
                } else {
                    None
                })
            }
        }
}

/// Where the first correlation is a number, a fine peak is the first of the largest, with those on
/// both of its sides where it has two, and there is one exactly where some correlation is 0.3 or
/// better.
pub proof fn law_fine_peak_is_the_first_of_the_largest(
    ncc_values: Seq<Float64>,
    r: Option<FinePeak>,
)
    requires
        is_fine_peak(ncc_values, r),
        !ncc_values[0].nan(),
    ensures
        r is Some <==> exists|i: int|
            0 <= i < ncc_values.len() && !(#[trigger] ncc_values[i]).nan() && ncc_values[i].value()
                >= (Float64 { bits: 0x3fd3_3333_3333_3333 }).value(),
        r matches Some(peak) ==> {
            &&& peak.index < ncc_values.len()
            &&& peak.ncc == ncc_values[peak.index as int]
            &&& forall|i: int|
                0 <= i < ncc_values.len() && !(#[trigger] ncc_values[i]).nan() ==> {
                    &&& ncc_values[i].value() <= peak.ncc.value()
                    &&& i < peak.index ==> ncc_values[i].value() < peak.ncc.value()
                }
            &&& match peak.neighbours {
                Some((left, right)) => {
                    &&& 1 <= peak.index && peak.index + 1 < ncc_values.len()
                    &&& left == ncc_values[peak.index - 1]
                    &&& right == ncc_values[peak.index + 1]
                },
                None => peak.index == 0 || peak.index + 1 == ncc_values.len(),
            }
        },
{
    let threshold = Float64 { bits: 0x3fd3_3333_3333_3333 };
    let best = choose|best: int| #[trigger]
        is_first_best(ncc_values, best) && if below(ncc_values[best], threshold) {
            r is None
        } else {
            r matches Some(peak) && {
                &&& peak.index == best
                &&& peak.ncc == ncc_values[best]
                &&& peak.neighbours == (if 0 < best < ncc_values.len() - 1 {
                    Some((ncc_values[best - 1], ncc_values[best + 1]))
                } else {
                    None
                })
            }
        };
    assert(!threshold.nan());
    if r is Some {
        assert(ncc_values[best].value() >= threshold.value());
    }
}

/// Where the first correlation is no number, the peak is taken to be there.
pub proof fn law_fine_peak_behind_no_number(ncc_values: Seq<Float64>, r: Option<FinePeak>)
    requires
        is_fine_peak(ncc_values, r),
        ncc_values[0].nan(),
    ensures
        r matches Some(peak) && peak.index == 0 && peak.ncc == ncc_values[0] && peak.neighbours
            is None,
{
}

/// Where the correlations of a fine window peak is determined.
pub proof fn law_fine_peak_unique(
    ncc_values: Seq<Float64>,
    r: Option<FinePeak>,
    s: Option<FinePeak>,
)
    requires
        is_fine_peak(ncc_values, r),
        is_fine_peak(ncc_values, s),
    ensures
        r == s,
{
    assert forall|i: int, j: int| #[trigger]
        is_first_best(ncc_values, i) && #[trigger] is_first_best(ncc_values, j) implies i == j by {
        law_first_best_unique(ncc_values, i, j);
    }
}

/// Where the correlations of a fine window peak, if they peak high enough.
pub fn fine_peak(ncc_values: &Vec<Float64>) -> (r: Option<FinePeak>)
    requires
        ncc_values.len() > 0,
    ensures
        is_fine_peak(ncc_values@, r),
{
    let index: usize = first_best(ncc_values);
    let threshold: Float64 = Float64 { bits: FINE_PEAK_THRESHOLD };
    let ncc = ncc_values[index];
    if threshold.exceeds(ncc) {
        return None;
    }
    let neighbours = if index > 0 && index < ncc_values.len() - 1 {
        Some((ncc_values[index - 1], ncc_values[index + 1]))
    } else {
        None
    };
    Some(FinePeak { index, ncc, neighbours })
}

/// A place in the capture where the probe was found.
#[derive(Clone, Copy, Debug, PartialEq, Eq, Structural)]
pub struct FineMatch {
    /// Samples from the start of the capture, with a fraction.
    pub lag: Float64,
    /// The correlation there.
    pub ncc: Float32,
}

/// The correlations of the matches.
pub open spec fn match_correlations(matches: Seq<FineMatch>) -> Seq<Float32> {
    matches.map_values(|m: FineMatch| m.ncc)
}

/// `r` is the best of the matches, if there are any and it is good enough to report.
pub open spec fn is_best_match(matches: Seq<FineMatch>, r: Option<FineMatch>) -> bool {
    if matches.len() == 0 {
        r is None
    } else {
        exists|best: int| #[trigger]
            is_first_best(match_correlations(matches), best) && r == (if below(
                matches[best].ncc,
                Float32 { bits: FINE_NCC_THRESHOLD },
            ) {
                None
            } else {
                Some(matches[best])
            })
    }
}

/// Where the first match correlates by a number, a match is reported exactly where one correlates
/// at 0.92 or better, and it is the first of the best.
pub proof fn law_good_matches_are_reported(matches: Seq<FineMatch>, r: Option<FineMatch>)
    requires
        is_best_match(matches, r),
        matches.len() > 0 ==> !matches[0].ncc.nan(),
    ensures
        r is Some <==> exists|i: int|
            0 <= i < matches.len() && !(#[trigger] matches[i]).ncc.nan() && matches[i].ncc.value()
                >= (Float32 { bits: 0x3f6b_851f }).value(),
        r matches Some(found) ==> exists|i: int|
            0 <= i < matches.len() && #[trigger] matches[i] == found && forall|j: int|
                0 <= j < matches.len() && !(#[trigger] matches[j]).ncc.nan() ==> {
                    &&& matches[j].ncc.value() <= found.ncc.value()
                    &&& j < i ==> matches[j].ncc.value() < found.ncc.value()
                },
{
    let nccs = match_correlations(matches);
    let threshold = Float32 { bits: 0x3f6b_851f };
    assert(!threshold.nan());
    if matches.len() > 0 {
        let best = choose|best: int| #[trigger]
            is_first_best(nccs, best) && r == (if below(matches[best].ncc, threshold) {
                None
            } else {
                Some(matches[best])
            });
        assert(nccs[0] == matches[0].ncc);
        assert(nccs[best] == matches[best].ncc);
        assert forall|j: int| 0 <= j < matches.len() && !(#[trigger] matches[j]).ncc.nan() implies {
            &&& matches[j].ncc.value() <= matches[best].ncc.value()
            &&& j < best ==> matches[j].ncc.value() < matches[best].ncc.value()
        } by {
            assert(nccs[j] == matches[j].ncc);
        }
        if r is Some {
            assert(matches[best].ncc.value() >= threshold.value());
        }
    }
}

/// A first match that correlates by no number is reported, whatever follows.
pub proof fn law_first_match_of_no_number(matches: Seq<FineMatch>, r: Option<FineMatch>)
    requires
        is_best_match(matches, r),
        matches.len() > 0,
        matches[0].ncc.nan(),
    ensures
        r == Some(matches[0]),
{
    assert(match_correlations(matches)[0] == matches[0].ncc);
}

/// Which match is reported is determined.
pub proof fn law_best_match_unique(
    matches: Seq<FineMatch>,
    r: Option<FineMatch>,
    s: Option<FineMatch>,
)
    requires
        is_best_match(matches, r),
        is_best_match(matches, s),
    ensures
        r == s,
{
    let nccs = match_correlations(matches);
    assert forall|i: int, j: int| #[trigger]
        is_first_best(nccs, i) && #[trigger] is_first_best(nccs, j) implies i == j by {
        law_first_best_unique(nccs, i, j);
    }
}

/// A match that is reported is one of those found, is not below the threshold, and none of the
/// others is better.
pub proof fn law_reported_match_is_best(matches: Seq<FineMatch>, found: FineMatch)
    requires
        is_best_match(matches, Some(found)),
    ensures
        matches.contains(found),
        !below(found.ncc, Float32 { bits: FINE_NCC_THRESHOLD }),
        forall|i: int|
            0 <= i < matches.len() ==> !greater((#[trigger] matches[i]).ncc, found.ncc),
{
    let nccs = match_correlations(matches);
    let best = choose|best: int| #[trigger]
        is_first_best(nccs, best) && Some(found) == (if below(
            matches[best].ncc,
            Float32 { bits: FINE_NCC_THRESHOLD },
        ) {
            None
        } else {
            Some(matches[best])
        });
    assert(nccs[best] == matches[best].ncc);
    assert forall|i: int| 0 <= i < matches.len() implies !greater(
        (#[trigger] matches[i]).ncc,
        found.ncc,
    ) by {
        assert(nccs[i] == matches[i].ncc);
    }
}

/// The best of the matches that the fine stage found, if it is good enough to report.
pub fn best_match(matches: &Vec<FineMatch>) -> (r: Option<FineMatch>)
    ensures
        is_best_match(matches@, r),
{
    if matches.len() == 0 {
        return None;
    }
    let mut correlations: Vec<Float32> = Vec::new();
    let mut i: usize = 0;
    while i < matches.len()
        invariant
            i <= matches.len(),
            correlations@ == match_correlations(matches@.take(i as int)),
        decreases matches.len() - i,
    {
        correlations.push(matches[i].ncc);
        i += 1;
        proof {
            assert(correlations@ =~= match_correlations(matches@.take(i as int)));
        }
    }
    proof {
        assert(matches@.take(matches.len() as int) =~= matches@);
    }
    let best: usize = first_best(&correlations);
    let threshold: Float32 = Float32 { bits: FINE_NCC_THRESHOLD };
    if threshold.exceeds(matches[best].ncc) {
        None
    } else {
        Some(matches[best])
    }
}

} // verus!
