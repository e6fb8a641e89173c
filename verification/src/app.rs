//! What the measuring application decides: its course from one probe to the next, the choice of
//! devices, and the file that results are saved to.

use vstd::prelude::*;
use vstd::string::*;

use crate::audio::ring_snapshot;
use crate::float_bits::{greater, Float32, Float64, Real};
use crate::latency::StreamInstant;
use crate::ranking::{in_order, law_in_order, sortable, sorted};
use crate::state::{
    silence, AppMode, MeasurementPhase, SharedState, MAX_MEASUREMENTS,
};

verus! {

/// What the detection loop has to do next.
pub enum DetectionPoll {
    /// The streams are down: leave the loop.
    Stopped,
    /// Nothing for now.
    Waiting,
    /// The probe was not found in time and is played again.
    Missed,
    /// Look for the probe.
    Search(Search),
}

/// What a search for the probe works on.
pub struct Search {
    /// What was captured since the probe started.
    pub capture: Vec<Float32>,
    /// The input's sample rate.
    pub input_rate: u32,
    /// The output's sample rate.
    pub output_rate: u32,
    /// When the buffer with the probe's start reaches the converter.
    pub playback_instant: Option<StreamInstant>,
    /// When the buffer with the probe's start was filled.
    pub output_callback_instant: Option<StreamInstant>,
    /// The frame of that buffer at which the probe starts.
    pub playback_frame_offset: u32,
}

/// A probe that was found, in milliseconds where not said otherwise.
#[derive(Clone, Copy, Debug, PartialEq, Eq, Structural)]
pub struct Detection {
    /// The correlation.
    pub ncc_peak: Float32,
    /// The latency from the converter back to the capture.
    pub latency_ms: Float64,
    /// The time from the start of the capture to the converter.
    pub output_delay_ms: Float64,
    /// The time from the start of the capture to the probe in it.
    pub lag_ms: Float64,
    /// The latency less the latency of the system itself.
    pub above_offset_ms: Float64,
}

/// A number, or zero where it is below zero or no number.
pub open spec fn at_least_zero(x: Float64) -> Float64 {
    if greater(x, Float64 { bits: 0 }) {
        x
    } else {
        Float64 { bits: 0 }
    }
}

/// The last `MAX_MEASUREMENTS` elements.
pub open spec fn newest(s: Seq<Float64>) -> Seq<Float64> {
    if s.len() > MAX_MEASUREMENTS {
        s.skip(s.len() - MAX_MEASUREMENTS)
    } else {
        s
    }
}

/// The middle element of `s` in order; the upper one of two.
pub open spec fn median(s: Seq<Float64>) -> Float64 {
    in_order(s)[s.len() as int / 2]
}

/// The median is one of the elements; with the elements in order, none before the middle is
/// larger and none behind it is smaller.
pub proof fn law_median(s: Seq<Float64>)
    requires
        s.len() > 0,
    ensures
        s.contains(median(s)),
        forall|i: int|
            0 <= i <= s.len() as int / 2 ==> (#[trigger] in_order(s)[i]).value() <= median(
                s,
            ).value(),
        forall|i: int|
            s.len() as int / 2 <= i < s.len() ==> (#[trigger] in_order(s)[i]).value() >= median(
                s,
            ).value(),
{
    broadcast use vstd::seq_lib::group_to_multiset_ensures;

    law_in_order(s);
    assert(in_order(s).contains(median(s)));
    assert(in_order(s).to_multiset().count(median(s)) > 0);
}

/// `after` is the state `before` with a probe that was found taken in.
pub open spec fn recorded(before: SharedState, found: Detection, after: SharedState) -> bool {
    match before.mode {
        AppMode::Calibrating => {
            let latencies = before.calibration_measurements@.push(found.latency_ms);
            let done = latencies.len() >= before.calibration_count;
            &&& after.calibration_measurements@ == latencies
            &&& after == (SharedState {
                last_ncc_peak: found.ncc_peak,
                last_latency_ms: Some(found.latency_ms),
                last_output_delay_ms: Some(found.output_delay_ms),
                last_lag_ms: Some(found.lag_ms),
                calibration_measurements: after.calibration_measurements,
                system_offset_ms: if done {
                    median(latencies)
                } else {
                    before.system_offset_ms
                },
                mode: if done {
                    AppMode::Idle
                } else {
                    AppMode::Calibrating
                },
                phase: if done {
                    MeasurementPhase::Idle
                } else {
                    MeasurementPhase::Playing
                },
                probe_play_requested: if done {
                    before.probe_play_requested
                } else {
                    true
                },
                ..before
            })
        },
        AppMode::Measuring => {
            &&& after.measurements@ == newest(
                before.measurements@.push(at_least_zero(found.above_offset_ms)),
            )
            &&& after == (SharedState {
                last_ncc_peak: found.ncc_peak,
                last_latency_ms: Some(found.latency_ms),
                last_output_delay_ms: Some(found.output_delay_ms),
                last_lag_ms: Some(found.lag_ms),
                measurements: after.measurements,
                measurement_count: (before.measurement_count + 1) as u64,
                phase: MeasurementPhase::Playing,
                probe_play_requested: true,
                ..before
            })
        },
        AppMode::Idle => after == (SharedState {
            last_ncc_peak: found.ncc_peak,
            last_latency_ms: Some(found.latency_ms),
            last_output_delay_ms: Some(found.output_delay_ms),
            last_lag_ms: Some(found.lag_ms),
            phase: MeasurementPhase::Detected,
            ..before
        }),
    }
}

/// A probe that was taken in.
pub struct Taken {
    /// The state before.
    pub before: SharedState,
    /// The probe.
    pub found: Detection,
    /// The state after.
    pub after: SharedState,
}

/// The mode, the calibration and the measurements are the same.
pub open spec fn undisturbed(a: SharedState, b: SharedState) -> bool {
    &&& a.mode == b.mode
    &&& a.calibration_measurements@ == b.calibration_measurements@
    &&& a.calibration_count == b.calibration_count
    &&& a.measurements@ == b.measurements@
    &&& a.measurement_count == b.measurement_count
}

/// The probes were taken in one after the other. Between two of them the mode, the calibration and
/// the measurements stayed as they were.
pub open spec fn taken_in_turn(run: Seq<Taken>) -> bool {
    &&& forall|k: int|
        0 <= k < run.len() ==> recorded(
            (#[trigger] run[k]).before,
            run[k].found,
            run[k].after,
        )
    &&& forall|j: int, k: int|
        0 <= j < run.len() && 0 <= k < run.len() && k == j + 1 ==> undisturbed(
            (#[trigger] run[j]).after,
            (#[trigger] run[k]).before,
        )
}

/// The latencies of the probes.
pub open spec fn latencies(run: Seq<Taken>) -> Seq<Float64> {
    run.map_values(|t: Taken| t.found.latency_ms)
}

/// The measurements that the probes make.
pub open spec fn adjusted_latencies(run: Seq<Taken>) -> Seq<Float64> {
    run.map_values(|t: Taken| at_least_zero(t.found.above_offset_ms))
}

proof fn lemma_taken_front(run: Seq<Taken>)
    requires
        taken_in_turn(run),
        run.len() > 0,
    ensures
        taken_in_turn(run.drop_last()),
{
    let front = run.drop_last();
    assert forall|k: int| 0 <= k < front.len() implies #[trigger] front[k] == run[k] by {}
}

proof fn lemma_newest_again(s: Seq<Float64>, x: Float64)
    ensures
        newest(newest(s).push(x)) == newest(s.push(x)),
{
    assert(newest(newest(s).push(x)) =~= newest(s.push(x)));
}

/// A calibration goes on, requesting one probe after the other, until it has its count of
/// latencies. Then it is over, and their median is the system's offset.
pub proof fn law_calibration_yields_the_median(run: Seq<Taken>)
    requires
        taken_in_turn(run),
        0 < run.len() <= run[0].before.calibration_count,
        run[0].before.mode == AppMode::Calibrating,
        run[0].before.calibration_measurements.len() == 0,
    ensures
        run.last().after.calibration_count == run[0].before.calibration_count,
        run.last().after.calibration_measurements@ == latencies(run),
        run.len() < run[0].before.calibration_count ==> {
            &&& run.last().after.mode == AppMode::Calibrating
            &&& run.last().after.probe_play_requested
        },
        run.len() == run[0].before.calibration_count ==> {
            &&& run.last().after.mode == AppMode::Idle
            &&& run.last().after.phase == MeasurementPhase::Idle
            &&& run.last().after.system_offset_ms == median(latencies(run))
        },
    decreases run.len(),
{
    let n = run.len() as int;
    let last = run[n - 1];
    assert(recorded(last.before, last.found, last.after));
    if n > 1 {
        let front = run.drop_last();
        lemma_taken_front(run);
        law_calibration_yields_the_median(front);
        assert(front.last() == run[n - 2]);
        assert(undisturbed(run[n - 2].after, last.before));
        assert(latencies(run) =~= latencies(front).push(last.found.latency_ms));
    } else {
        assert(latencies(run) =~= last.before.calibration_measurements@.push(
            last.found.latency_ms,
        ));
    }
}

/// However many probes were measured, the measurements are the newest of them all, in the order in
/// which they were made, and all of them are counted.
pub proof fn law_measurements_are_the_newest(run: Seq<Taken>)
    requires
        taken_in_turn(run),
        0 < run.len() <= u64::MAX,
        run[0].before.mode == AppMode::Measuring,
        run[0].before.measurements.len() == 0,
        run[0].before.measurement_count == 0,
    ensures
        run.last().after.mode == AppMode::Measuring,
        run.last().after.measurements@ == newest(adjusted_latencies(run)),
        run.last().after.measurement_count == run.len(),
    decreases run.len(),
{
    let n = run.len() as int;
    let last = run[n - 1];
    let value = at_least_zero(last.found.above_offset_ms);
    assert(recorded(last.before, last.found, last.after));
    if n > 1 {
        let front = run.drop_last();
        lemma_taken_front(run);
        law_measurements_are_the_newest(front);
        assert(front.last() == run[n - 2]);
        assert(undisturbed(run[n - 2].after, last.before));
        assert(adjusted_latencies(run) =~= adjusted_latencies(front).push(value));
        lemma_newest_again(adjusted_latencies(front), value);
    } else {
        assert(last.before.measurements@.push(value) =~= adjusted_latencies(run));
    }
}

/// Measuring goes on: after every probe that is taken in, the next one is requested, and the mode
/// and the system's offset stay as they were.
pub proof fn law_measuring_goes_on(run: Seq<Taken>, k: int)
    requires
        taken_in_turn(run),
        0 <= k < run.len(),
        run[0].before.mode == AppMode::Measuring,
    ensures
        run[k].after.mode == AppMode::Measuring,
        run[k].after.phase == MeasurementPhase::Playing,
        run[k].after.probe_play_requested,
        run[k].after.system_offset_ms == run[k].before.system_offset_ms,
    decreases k,
{
    assert(recorded(run[k].before, run[k].found, run[k].after));
    if k > 0 {
        law_measuring_goes_on(run, k - 1);
        assert(undisturbed(run[k - 1].after, run[k].before));
    }
}

/// A calibration that is not complete plays on after every probe; one that is complete plays no
/// more, and the offset changes only then.
pub proof fn law_calibrating_goes_on_until_complete(
    before: SharedState,
    found: Detection,
    after: SharedState,
)
    requires
        recorded(before, found, after),
        before.mode == AppMode::Calibrating,
    ensures
        after.calibration_measurements.len() == before.calibration_measurements.len() + 1,
        after.calibration_measurements@.last() == found.latency_ms,
        after.calibration_measurements@.drop_last() == before.calibration_measurements@,
        after.calibration_measurements.len() < before.calibration_count ==> {
            &&& after.mode == AppMode::Calibrating
            &&& after.phase == MeasurementPhase::Playing
            &&& after.probe_play_requested
            &&& after.system_offset_ms == before.system_offset_ms
        },
        after.calibration_measurements.len() >= before.calibration_count ==> {
            &&& after.mode == AppMode::Idle
            &&& after.phase == MeasurementPhase::Idle
            &&& after.probe_play_requested == before.probe_play_requested
        },
{
    assert(after.calibration_measurements@.drop_last() =~= before.calibration_measurements@);
}

/// Whatever the mode, a probe that is taken in is the one shown last, and the streams, the capture
/// and what is being played are left alone. Calibrating leaves the measurements alone, measuring
/// the calibration, and with neither going on both are.
pub proof fn law_recording_leaves_the_rest_alone(
    before: SharedState,
    found: Detection,
    after: SharedState,
)
    requires
        recorded(before, found, after),
    ensures
        after.last_ncc_peak == found.ncc_peak,
        after.last_latency_ms == Some(found.latency_ms),
        after.last_output_delay_ms == Some(found.output_delay_ms),
        after.last_lag_ms == Some(found.lag_ms),
        after.output_device_idx == before.output_device_idx,
        after.input_device_idx == before.input_device_idx,
        after.probe_playing == before.probe_playing,
        after.probe_play_sample_idx == before.probe_play_sample_idx,
        after.emission_write_pos == before.emission_write_pos,
        after.playback_instant == before.playback_instant,
        after.output_callback_instant == before.output_callback_instant,
        after.playback_frame_offset == before.playback_frame_offset,
        after.capture_buffer == before.capture_buffer,
        after.capture_write_pos == before.capture_write_pos,
        after.capture_sample_counter == before.capture_sample_counter,
        after.calibration_count == before.calibration_count,
        after.miss_count == before.miss_count,
        after.phase_start_sample == before.phase_start_sample,
        after.listen_timeout_samples == before.listen_timeout_samples,
        after.inter_probe_gap_samples == before.inter_probe_gap_samples,
        after.output_sample_rate == before.output_sample_rate,
        after.input_sample_rate == before.input_sample_rate,
        after.error_message == before.error_message,
        after.streams_active == before.streams_active,
        before.mode != AppMode::Measuring ==> {
            &&& after.measurements == before.measurements
            &&& after.measurement_count == before.measurement_count
        },
        before.mode != AppMode::Calibrating ==> {
            &&& after.calibration_measurements == before.calibration_measurements
            &&& after.system_offset_ms == before.system_offset_ms
            &&& after.mode == before.mode
        },
        before.mode == AppMode::Idle ==> {
            &&& after.phase == MeasurementPhase::Detected
            &&& after.probe_play_requested == before.probe_play_requested
        },
{
}

/// After so many probes were measured the last thousand of them are kept, the newest at the end:
/// each is what it was above the offset where that is a number above zero, and zero otherwise.
pub proof fn law_the_last_thousand_are_kept(run: Seq<Taken>, i: int)
    requires
        taken_in_turn(run),
        0 < run.len() <= u64::MAX,
        run[0].before.mode == AppMode::Measuring,
        run[0].before.measurements.len() == 0,
        run[0].before.measurement_count == 0,
        0 <= i < run.len(),
        i < 1000,
    ensures
        ({
            let kept = run.last().after.measurements@;
            let above = run[run.len() - 1 - i].found.above_offset_ms;
            let measured = kept[kept.len() - 1 - i];
            &&& kept.len() == (if run.len() < 1000 {
                run.len() as int
            } else {
                1000int
            })
            &&& if !above.nan() && above.value() > 0 {
                measured == above
            } else {
                measured == (Float64 { bits: 0 })
            }
        }),
{
    law_measurements_are_the_newest(run);
    crate::float_bits::lemma_scaled_magnitude_increases(
        0,
        1,
        crate::float_bits::FRACTION_STEPS_64 as nat,
    );
    let all = adjusted_latencies(run);
    let at = run.len() - 1 - i;
    assert((Float64 { bits: 0 }).value() == 0 && !(Float64 { bits: 0 }).nan());
    assert(all[at] == at_least_zero(run[at].found.above_offset_ms));
}

/// `after` is what one round of the detection loop leaves of `before`, with this to do next.
pub open spec fn polled(before: SharedState, r: DetectionPoll, after: SharedState) -> bool {
    let listening = before.streams_active && before.phase == MeasurementPhase::Listening;
    match r {
        DetectionPoll::Stopped => !before.streams_active && after == before,
        DetectionPoll::Waiting => before.streams_active && !listening && after == before,
        DetectionPoll::Missed => listening && before.listened_too_long() && after == (SharedState {
            miss_count: (before.miss_count + 1) as u64,
            phase: MeasurementPhase::Playing,
            probe_play_requested: true,
            ..before
        }),
        DetectionPoll::Search(_) => listening && !before.listened_too_long() && after == before,
    }
}

/// A probe that is listened for is missed exactly once more was captured since the listening began
/// than the limit allows, whatever the mode. A missed probe is counted and played again, and
/// nothing else changes; any other round of the loop changes nothing at all.
pub proof fn law_missed_probes_are_played_again(
    before: SharedState,
    r: DetectionPoll,
    after: SharedState,
)
    requires
        polled(before, r, after),
        before.miss_count < u64::MAX,
    ensures
        r is Missed <==> before.streams_active && before.phase == MeasurementPhase::Listening
            && before.capture_sample_counter > before.phase_start_sample
            + before.listen_timeout_samples,
        r is Search <==> before.streams_active && before.phase == MeasurementPhase::Listening
            && before.capture_sample_counter <= before.phase_start_sample
            + before.listen_timeout_samples,
        r is Missed ==> {
            &&& after.miss_count == before.miss_count + 1
            &&& after.phase == MeasurementPhase::Playing
            &&& after.probe_play_requested
            &&& after.mode == before.mode
            &&& undisturbed(before, after)
            &&& after.capture_buffer == before.capture_buffer
            &&& after.capture_write_pos == before.capture_write_pos
            &&& after.system_offset_ms == before.system_offset_ms
        },
        r !is Missed ==> after == before,
{
}

/// Whether a probe has been listened for too long depends on the time listened alone: it has once
/// more samples were captured since the listening began than the limit allows.
pub proof fn law_the_time_listened_decides(st: SharedState)
    ensures
        st.listened_too_long() <==> st.capture_sample_counter > st.phase_start_sample
            + st.listen_timeout_samples,
{
}

/// States that agree on when the listening began, on what was captured since and on the limit
/// agree on whether a probe is missed, and a probe that is missed stays so as more is captured.
pub proof fn law_more_captured_is_no_less_missed(a: SharedState, b: SharedState)
    requires
        a.phase_start_sample == b.phase_start_sample,
        a.listen_timeout_samples == b.listen_timeout_samples,
        a.capture_sample_counter <= b.capture_sample_counter,
    ensures
        a.listened_too_long() ==> b.listened_too_long(),
        a.capture_sample_counter == b.capture_sample_counter ==> (a.listened_too_long()
            <==> b.listened_too_long()),
{
}

impl SharedState {
    /// Whether the probe has been listened for too long.
    pub open spec fn listened_too_long(self) -> bool {
        self.capture_sample_counter - self.phase_start_sample > self.listen_timeout_samples
    }

    /// One round of the detection loop, up to the search itself. A probe that was not found in
    /// time counts as a miss and is requested again.
    pub fn poll_detection(&mut self) -> (r: DetectionPoll)
        requires
            old(self).wf(),
            old(self).streams_active && old(self).phase == MeasurementPhase::Listening && old(
                self,
            ).listened_too_long() ==> old(self).miss_count < u64::MAX,
        ensures
            final(self).wf(),
            polled(*old(self), r, *final(self)),
            r is Stopped <==> !old(self).streams_active,
            r is Waiting <==> old(self).streams_active && old(self).phase
                != MeasurementPhase::Listening,
            r is Missed <==> old(self).streams_active && old(self).phase
                == MeasurementPhase::Listening && old(self).listened_too_long(),
            old(self).streams_active && old(self).phase == MeasurementPhase::Listening ==> (r
                is Missed <==> old(self).capture_sample_counter > old(self).phase_start_sample
                + old(self).listen_timeout_samples),
            r !is Missed ==> *final(self) == *old(self),
            r is Missed ==> *final(self) == (SharedState {
                miss_count: (old(self).miss_count + 1) as u64,
                phase: MeasurementPhase::Playing,
                probe_play_requested: true,
                ..*old(self)
            }),
            r matches DetectionPoll::Search(s) ==> {
                &&& s.capture@ == ring_snapshot(
                    old(self).capture_buffer@,
                    old(self).emission_write_pos as nat,
                    old(self).capture_write_pos as nat,
                )
                &&& s.input_rate == old(self).input_sample_rate
                &&& s.output_rate == old(self).output_sample_rate
                &&& s.playback_instant == old(self).playback_instant
                &&& s.output_callback_instant == old(self).output_callback_instant
                &&& s.playback_frame_offset == old(self).playback_frame_offset
            },
    {
        if !self.streams_active {
            return DetectionPoll::Stopped;
        }
        if self.phase != MeasurementPhase::Listening {
            return DetectionPoll::Waiting;
        }
        let elapsed: u64 = self.capture_sample_counter.saturating_sub(self.phase_start_sample);
        if elapsed > self.listen_timeout_samples {
            self.miss_count = self.miss_count + 1;
            self.phase = MeasurementPhase::Playing;
            self.probe_play_requested = true;
            return DetectionPoll::Missed;
        }
        DetectionPoll::Search(
            Search {
                capture: self.capture_snapshot(),
                input_rate: self.input_sample_rate,
                output_rate: self.output_sample_rate,
                playback_instant: self.playback_instant,
                output_callback_instant: self.output_callback_instant,
                playback_frame_offset: self.playback_frame_offset,
            },
        )
    }

    /// Takes in a probe that was found.
    ///
    /// While calibrating it adds to the calibration, whose median becomes the system's offset
    /// once it is complete. While measuring it adds a measurement, of which the newest are kept.
    /// Either way the next probe is requested, unless the calibration is complete.
    pub fn record_detection(&mut self, found: Detection)
        requires
            old(self).wf(),
            old(self).mode == AppMode::Calibrating && old(self).calibration_measurements.len() + 1
                >= old(self).calibration_count ==> sortable(
                old(self).calibration_measurements@.push(found.latency_ms),
            ),
            old(self).mode == AppMode::Measuring ==> old(self).measurement_count < u64::MAX,
        ensures
            final(self).wf(),
            recorded(*old(self), found, *final(self)),
    {
        self.last_ncc_peak = found.ncc_peak;
        self.last_latency_ms = Some(found.latency_ms);
        self.last_output_delay_ms = Some(found.output_delay_ms);
        self.last_lag_ms = Some(found.lag_ms);
        self.phase = MeasurementPhase::Detected;
        match self.mode {
            AppMode::Calibrating => {
                self.calibration_measurements.push(found.latency_ms);
                if self.calibration_measurements.len() >= self.calibration_count {
                    proof {
                        law_in_order(self.calibration_measurements@);
                    }
                    let ordered = sorted(&self.calibration_measurements);
                    self.system_offset_ms = ordered[ordered.len() / 2];
                    self.mode = AppMode::Idle;
                    self.phase = MeasurementPhase::Idle;
                } else {
                    self.phase = MeasurementPhase::Playing;
                    self.probe_play_requested = true;
                }
            },
            AppMode::Measuring => {
                let zero: Float64 = Float64::zero();
                let adjusted: Float64 = if found.above_offset_ms.exceeds(zero) {
                    found.above_offset_ms
                } else {
                    zero
                };
                self.measurements.push_back(adjusted);
                self.measurement_count = self.measurement_count + 1;
                let ghost all = self.measurements@;
                if self.measurements.len() > MAX_MEASUREMENTS {
                    let dropped = self.measurements.pop_front();
                    proof {
                        assert(self.measurements@ =~= newest(all));
                    }
                }
                self.phase = MeasurementPhase::Playing;
                self.probe_play_requested = true;
            },
            AppMode::Idle => {},
        }
    }
}

/// Whether to start the streams, and on which devices.
#[derive(Clone, Copy, Debug, PartialEq, Eq, Structural)]
pub enum StreamRequest {
    /// They are running already.
    Running,
    /// A device has yet to be chosen.
    DeviceMissing,
    /// Start them on these devices.
    Start {
        /// The output device's place in the list.
        output: usize,
        /// The input device's place in the list.
        input: usize,
    },
}

impl SharedState {
    /// Keeps a message for the user.
    pub fn set_error(&mut self, msg: &str)
        ensures
            final(self).error_message matches Some(m) && m@ == msg@,
            *final(self) == (SharedState {
                error_message: final(self).error_message,
                ..*old(self)
            }),
            old(self).wf() ==> final(self).wf(),
    {
        self.error_message = Some(msg.to_string());
    }

    /// Decides whether the streams have to be started. A missing device is told to the user, the
    /// output device first.
    pub fn request_streams(&mut self) -> (r: StreamRequest)
        ensures
            r == (if old(self).streams_active {
                StreamRequest::Running
            } else {
                match (old(self).output_device_idx, old(self).input_device_idx) {
                    (Some(output), Some(input)) => StreamRequest::Start { output, input },
                    _ => StreamRequest::DeviceMissing,
                }
            }),
            r is DeviceMissing ==> {
                &&& final(self).error_message matches Some(m) && m@ == (if old(
                    self,
                ).output_device_idx is None {
                    "Select an output device first"@
                } else {
                    "Select an input device first"@
                })
                &&& *final(self) == (SharedState {
                    error_message: final(self).error_message,
                    ..*old(self)
                })
            },
            r !is DeviceMissing ==> *final(self) == *old(self),
            old(self).wf() ==> final(self).wf(),
    {
        if self.streams_active {
            return StreamRequest::Running;
        }
        match self.output_device_idx {
            None => {
                self.set_error("Select an output device first");
                StreamRequest::DeviceMissing
            },
            Some(output) => match self.input_device_idx {
                None => {
                    self.set_error("Select an input device first");
                    StreamRequest::DeviceMissing
                },
                Some(input) => StreamRequest::Start { output, input },
            },
        }
    }

    /// Notes that the output stream runs at `rate`: listen for five times as many samples, pause
    /// for as many.
    ///
    /// The listening is counted in samples of the input. It lasts five seconds where the input
    /// runs at the same rate, and longer or shorter as the input runs slower or faster.
    pub fn output_started(&mut self, rate: u32)
        ensures
            *final(self) == (SharedState {
                output_sample_rate: rate,
                listen_timeout_samples: (rate * 5) as u64,
                inter_probe_gap_samples: rate as u64,
                ..*old(self)
            }),
            old(self).wf() ==> final(self).wf(),
    {
        self.output_sample_rate = rate;
        self.listen_timeout_samples = (rate as u64) * 5;
        self.inter_probe_gap_samples = rate as u64;
    }

    /// Notes that the input stream runs at `rate`, with an empty ring of ten seconds.
    pub fn input_started(&mut self, rate: u32)
        requires
            0 < rate * 10 <= usize::MAX,
        ensures
            final(self).capture_buffer@ == Seq::new(
                (rate * 10) as nat,
                |i: int| Float32 { bits: 0 },
            ),
            *final(self) == (SharedState {
                input_sample_rate: rate,
                capture_buffer: final(self).capture_buffer,
                capture_write_pos: 0,
                streams_active: true,
                ..*old(self)
            }),
            old(self).wf() ==> final(self).wf(),
    {
        self.input_sample_rate = rate;
        self.capture_buffer = silence((rate as usize) * 10);
        self.capture_write_pos = 0;
        self.streams_active = true;
    }

    /// Begins a calibration; the first probe waits for the streams.
    pub fn begin_calibration(&mut self)
        ensures
            final(self).calibration_measurements@ == Seq::<Float64>::empty(),
            *final(self) == (SharedState {
                mode: AppMode::Calibrating,
                calibration_measurements: final(self).calibration_measurements,
                phase: MeasurementPhase::Idle,
                error_message: None,
                ..*old(self)
            }),
            old(self).wf() ==> final(self).wf(),
    {
        self.mode = AppMode::Calibrating;
        self.calibration_measurements.clear();
        self.phase = MeasurementPhase::Idle;
        self.error_message = None;
    }

    /// Begins measuring afresh; the first probe waits for the streams.
    pub fn begin_measuring(&mut self)
        ensures
            final(self).measurements@ == Seq::<Float64>::empty(),
            *final(self) == (SharedState {
                mode: AppMode::Measuring,
                measurements: final(self).measurements,
                measurement_count: 0,
                miss_count: 0,
                phase: MeasurementPhase::Idle,
                error_message: None,
                ..*old(self)
            }),
            old(self).wf() ==> final(self).wf(),
    {
        self.mode = AppMode::Measuring;
        self.reset_measurements();
        self.phase = MeasurementPhase::Idle;
        self.error_message = None;
    }

    /// Requests the first probe, if the streams are running.
    pub fn play_if_streaming(&mut self)
        ensures
            *final(self) == (if old(self).streams_active {
                SharedState {
                    phase: MeasurementPhase::Playing,
                    probe_play_requested: true,
                    ..*old(self)
                }
            } else {
                *old(self)
            }),
            old(self).wf() ==> final(self).wf(),
    {
        if self.streams_active {
            self.phase = MeasurementPhase::Playing;
            self.probe_play_requested = true;
        }
    }

    /// Ends whatever is going on. The streams keep running.
    pub fn stop(&mut self)
        ensures
            *final(self) == (SharedState {
                probe_playing: false,
                probe_play_requested: false,
                phase: MeasurementPhase::Idle,
                mode: AppMode::Idle,
                ..*old(self)
            }),
            old(self).wf() ==> final(self).wf(),
    {
        self.probe_playing = false;
        self.probe_play_requested = false;
        self.phase = MeasurementPhase::Idle;
        self.mode = AppMode::Idle;
    }

    /// Whether there is an offset to show.
    pub fn shows_offset(&self) -> (r: bool)
        ensures
            r == greater(self.system_offset_ms, Float64 { bits: 0 }),
    {
        let zero: Float64 = Float64::zero();
        self.system_offset_ms.exceeds(zero)
    }

    /// Whether there is a detection to show.
    pub fn shows_timing(&self) -> (r: bool)
        ensures
            r == (self.last_latency_ms is Some || self.last_lag_ms is Some),
    {
        self.last_latency_ms.is_some() || self.last_lag_ms.is_some()
    }
}

impl AppMode {
    /// The name shown to the user.
    pub fn label(self) -> (r: &'static str)
        ensures
            r@ == (match self {
                AppMode::Idle => "Idle"@,
                AppMode::Calibrating => "Calibrating"@,
                AppMode::Measuring => "Measuring"@,
            }),
    {
        match self {
            AppMode::Idle => "Idle",
            AppMode::Calibrating => "Calibrating",
            AppMode::Measuring => "Measuring",
        }
    }
}

impl MeasurementPhase {
    /// The name shown to the user.
    pub fn label(self) -> (r: &'static str)
        ensures
            r@ == (match self {
                MeasurementPhase::Idle => "Idle"@,
                MeasurementPhase::Playing => "Playing probe..."@,
                MeasurementPhase::Listening => "Listening..."@,
                MeasurementPhase::Detected => "Detected!"@,
            }),
    {
        match self {
            MeasurementPhase::Idle => "Idle",
            MeasurementPhase::Playing => "Playing probe...",
            MeasurementPhase::Listening => "Listening...",
            MeasurementPhase::Detected => "Detected!",
        }
    }
}

/// `r` is the first place at which the wanted name stands, if a name is wanted and it stands
/// anywhere.
pub open spec fn is_first_named(
    names: Seq<Seq<char>>,
    wanted: Option<Seq<char>>,
    r: Option<usize>,
) -> bool {
    match (wanted, r) {
        (None, _) => r is None,
        (Some(name), None) => forall|j: int| 0 <= j < names.len() ==> #[trigger] names[j] != name,
        (Some(name), Some(i)) => {
            &&& i < names.len()
            &&& names[i as int] == name
            &&& forall|j: int| 0 <= j < i ==> #[trigger] names[j] != name
        },
    }
}

/// The text of an optional string.
pub open spec fn optional_text(s: Option<String>) -> Option<Seq<char>> {
    match s {
        Some(text) => Some(text@),
        None => None,
    }
}

/// The views of the strings.
pub open spec fn texts(values: Seq<String>) -> Seq<Seq<char>> {
    values.map_values(|v: String| v@)
}

/// The place found is the least of those at which the wanted name stands, and there is one found
/// exactly where the name is wanted and stands anywhere.
pub proof fn law_first_of_its_name(
    names: Seq<Seq<char>>,
    wanted: Option<Seq<char>>,
    r: Option<usize>,
    j: int,
)
    requires
        is_first_named(names, wanted, r),
    ensures
        wanted is None ==> r is None,
        r matches Some(i) ==> i < names.len() && wanted == Some(names[i as int]),
        0 <= j < names.len() && wanted == Some(names[j]) ==> (r matches Some(i) && i <= j),
{
}

/// The texts of strings are their characters, string by string.
pub proof fn law_texts(values: Seq<String>, i: int)
    ensures
        texts(values).len() == values.len(),
        0 <= i < values.len() ==> texts(values)[i] == values[i]@,
        0 <= i < values.len() ==> optional_text(Some(values[i])) == Some(values[i]@),
        optional_text(None) is None,
{
}

/// The first device of a given name, if a name is given and some device has it.
pub fn find_device(names: &Vec<String>, wanted: &Option<String>) -> (r: Option<usize>)
    ensures
        is_first_named(texts(names@), optional_text(*wanted), r),
{
    match wanted {
        None => None,
        Some(name) => {
            let mut i: usize = 0;
            while i < names.len()
                invariant
                    i <= names.len(),
                    *wanted == Some(*name),
                    forall|j: int| 0 <= j < i ==> #[trigger] texts(names@)[j] != name@,
                decreases names.len() - i,
            {
                if names[i] == *name {
                    return Some(i);
                }
                i += 1;
            }
            None
        },
    }
}

/// A device that was saved by its name is found again, where no other device has that name.
pub proof fn law_saved_device_is_found(names: Seq<Seq<char>>, saved: int, r: Option<usize>)
    requires
        0 <= saved < names.len(),
        forall|j: int| 0 <= j < names.len() && j != saved ==> #[trigger] names[j] != names[saved],
        is_first_named(names, Some(names[saved]), r),
    ensures
        r matches Some(i) && i == saved,
{
}

/// A choice among `count` devices, or the first one where none was made.
pub fn or_first_device(choice: Option<usize>, count: usize) -> (r: Option<usize>)
    ensures
        r == (if choice is None && count > 0 {
            Some(0usize)
        } else {
            choice
        }),
{
    if choice.is_none() && count > 0 {
        Some(0)
    } else {
        choice
    }
}

/// The name of the chosen device, if one is chosen and the list has it.
pub fn device_name(names: &Vec<String>, choice: Option<usize>) -> (r: Option<String>)
    ensures
        r is Some <==> (choice matches Some(i) && i < names.len()),
        r matches Some(name) ==> name@ == names[choice->0 as int]@,
{
    match choice {
        Some(i) => if i < names.len() {
            Some(names[i].clone())
        } else {
            None
        },
        None => None,
    }
}

/// What stands in a device list for the choice: the first device's name where none was made.
pub fn selected_text(names: &Vec<String>, choice: Option<usize>) -> (r: String)
    ensures
        ({
            let shown = match choice {
                Some(i) => i,
                None => 0,
            };
            r@ == if shown < names.len() {
                names[shown as int]@
            } else {
                "None"@
            }
        }),
{
    let shown: usize = match choice {
        Some(i) => i,
        None => 0,
    };
    if shown < names.len() {
        names[shown].clone()
    } else {
        "None".to_string()
    }
}

/// Whether the arguments ask for a calibration without a window.
pub fn wants_calibration(args: &Vec<String>) -> (r: bool)
    ensures
        r == exists|i: int|
            0 <= i < args.len() && ((#[trigger] args[i])@ == "--calibrate"@ || args[i]@
                == "-calibrate"@),
{
    let long = "--calibrate".to_string();
    let short = "-calibrate".to_string();
    let mut i: usize = 0;
    while i < args.len()
        invariant
            i <= args.len(),
            long@ == "--calibrate"@,
            short@ == "-calibrate"@,
            forall|j: int|
                0 <= j < i ==> (#[trigger] args[j])@ != "--calibrate"@ && args[j]@ != "-calibrate"@,
        decreases args.len() - i,
    {
        if args[i] == long || args[i] == short {
            return true;
        }
        i += 1;
    }
    false
}

/// The name ends in `.csv`.
pub open spec fn has_csv_suffix(name: Seq<char>) -> bool {
    name.len() >= 4 && name.skip(name.len() - 4) == seq!['.', 'c', 's', 'v']
}

/// The name of the file that results are saved to.
pub open spec fn csv_name(name: Seq<char>) -> Seq<char> {
    if has_csv_suffix(name) {
        name
    } else {
        name + seq!['.', 'c', 's', 'v']
    }
}

/// The name of the file that results are saved to: the given one, with `.csv` behind it where it
/// does not end so.
pub fn csv_path(filename: &str) -> (r: String)
    ensures
        r@ == csv_name(filename@),
{
    let n: usize = filename.unicode_len();
    let mut r = filename.to_string();
    if n >= 4 && filename.get_char(n - 4) == '.' && filename.get_char(n - 3) == 'c'
        && filename.get_char(n - 2) == 's' && filename.get_char(n - 1) == 'v' {
        proof {
            assert(filename@.skip(n - 4) =~= seq!['.', 'c', 's', 'v']);
        }
    } else {
        proof {
            if has_csv_suffix(filename@) {
                let tail = filename@.skip(n - 4);
                assert(tail[0] == filename@[n - 4]);
                assert(tail[1] == filename@[n - 3]);
                assert(tail[2] == filename@[n - 2]);
                assert(tail[3] == filename@[n - 1]);
            }
            reveal_strlit(".csv");
            assert(".csv"@ =~= seq!['.', 'c', 's', 'v']);
        }
        r.append(".csv");
    }
    r
}

/// A name that ends in `.csv` stays as it is, so that asking twice gives the same file.
pub proof fn law_csv_name_settles(name: Seq<char>)
    ensures
        has_csv_suffix(csv_name(name)),
        csv_name(csv_name(name)) == csv_name(name),
{
    if !has_csv_suffix(name) {
        assert((name + seq!['.', 'c', 's', 'v']).skip(name.len() as int) =~= seq![
            '.',
            'c',
            's',
            'v',
        ]);
    }
}

/// The name of the file is the given one with nothing or `.csv` behind it. It ends in `.csv`, and
/// nothing was added exactly where the given name ended so.
pub proof fn law_csv_name_ends_in_csv(name: Seq<char>)
    ensures
        ({
            let r = csv_name(name);
            let n = name.len() as int;
            let m = r.len() as int;
            &&& r.take(n) == name
            &&& m == n || m == n + 4
            &&& m >= 4 && r[m - 4] == '.' && r[m - 3] == 'c' && r[m - 2] == 's' && r[m - 1] == 'v'
            &&& m == n <==> (n >= 4 && name[n - 4] == '.' && name[n - 3] == 'c' && name[n - 2]
                == 's' && name[n - 1] == 'v')
        }),
{
    let n = name.len() as int;
    assert(csv_name(name).take(n) =~= name);
    if n >= 4 {
        let tail = name.skip(n - 4);
        assert(tail.len() == 4);
        assert(tail[0] == name[n - 4] && tail[1] == name[n - 3]);
        assert(tail[2] == name[n - 2] && tail[3] == name[n - 1]);
        if name[n - 4] == '.' && name[n - 3] == 'c' && name[n - 2] == 's' && name[n - 1] == 'v' {
            assert(tail =~= seq!['.', 'c', 's', 'v']);
        }
    }
}

/// The digit of a number below ten.
pub open spec fn digit(d: nat) -> char {
    (d + 48) as char
}

/// A number in decimal notation.
pub open spec fn decimal(n: nat) -> Seq<char>
    decreases n,
{
    if n < 10 {
        seq![digit(n)]
    } else {
        decimal(n / 10).push(digit(n % 10))
    }
}

/// What a text of digits reads as.
pub open spec fn reading(text: Seq<char>) -> int
    decreases text.len(),
{
    if text.len() == 0 {
        0
    } else {
        10 * reading(text.drop_last()) + (text.last() as int - '0' as int)
    }
}

/// The text is made of digits, of which there is one at least.
pub open spec fn all_digits(text: Seq<char>) -> bool {
    &&& text.len() > 0
    &&& forall|i: int| 0 <= i < text.len() ==> '0' <= #[trigger] text[i] && text[i] <= '9'
}

/// The decimal notation of a number reads back as that number. It is made of digits, and has no
/// zero in front but for zero itself.
pub proof fn law_decimal_reads_back(n: nat)
    ensures
        reading(decimal(n)) == n,
        all_digits(decimal(n)),
        n > 0 ==> decimal(n)[0] != '0',
    decreases n,
{
    let text = decimal(n);
    if n < 10 {
        assert(text.drop_last() =~= Seq::<char>::empty());
        assert(reading(text.drop_last()) == 0);
        assert(text.last() == digit(n));
    } else {
        law_decimal_reads_back(n / 10);
        assert(text.drop_last() =~= decimal(n / 10));
        assert(text.last() == digit(n % 10));
        assert(text[0] == decimal(n / 10)[0]);
        assert forall|i: int| 0 <= i < text.len() implies '0' <= #[trigger] text[i] && text[i]
            <= '9' by {
            if i < text.len() - 1 {
                assert(text[i] == decimal(n / 10)[i]);
            }
        }
    }
}

/// Two numbers with the same decimal notation are the same.
pub proof fn law_decimals_differ(a: nat, b: nat)
    ensures
        decimal(a) == decimal(b) ==> a == b,
{
    law_decimal_reads_back(a);
    law_decimal_reads_back(b);
}

fn append_decimal(out: &mut String, n: usize)
    ensures
        final(out)@ == old(out)@ + decimal(n as nat),
    decreases n,
{
    if n >= 10 {
        append_decimal(out, n / 10);
    }
    let ghost before = out@;
    let last: usize = n % 10;
    proof {
        reveal_strlit("0");
        reveal_strlit("1");
        reveal_strlit("2");
        reveal_strlit("3");
        reveal_strlit("4");
        reveal_strlit("5");
        reveal_strlit("6");
        reveal_strlit("7");
        reveal_strlit("8");
        reveal_strlit("9");
    }
    let text: &str = if last == 0 {
        "0"
    } else if last == 1 {
        "1"
    } else if last == 2 {
        "2"
    } else if last == 3 {
        "3"
    } else if last == 4 {
        "4"
    } else if last == 5 {
        "5"
    } else if last == 6 {
        "6"
    } else if last == 7 {
        "7"
    } else if last == 8 {
        "8"
    } else {
        "9"
    };
    proof {
        assert(text@ =~= seq![digit(last as nat)]);
    }
    out.append(text);
    proof {
        assert(out@ =~= old(out)@ + decimal(n as nat));
    }
}

/// The lines of the first `n` measurements.
pub open spec fn csv_lines(values: Seq<Seq<char>>, n: nat) -> Seq<char>
    decreases n,
{
    if n == 0 {
        Seq::empty()
    } else {
        csv_lines(values, (n - 1) as nat) + decimal(n) + seq![','] + values[n - 1] + seq!['\n']
    }
}

/// The rows of a text, each ended by a line break; what stands behind the last break is a row too.
pub open spec fn rows(text: Seq<char>) -> Seq<Seq<char>>
    decreases text.len(),
{
    if text.len() == 0 {
        seq![Seq::empty()]
    } else {
        let front = rows(text.drop_last());
        if text.last() == '\n' {
            front.push(Seq::empty())
        } else {
            front.drop_last().push(front.last().push(text.last()))
        }
    }
}

/// The text has no line break.
pub open spec fn unbroken(text: Seq<char>) -> bool {
    forall|i: int| 0 <= i < text.len() ==> #[trigger] text[i] != '\n'
}

proof fn lemma_rows_go_on(text: Seq<char>, line: Seq<char>)
    requires
        unbroken(line),
    ensures
        rows(text).len() > 0,
        rows(text + line) == rows(text).drop_last().push(rows(text).last() + line),
    decreases text.len() + line.len(),
{
    if text.len() > 0 {
        lemma_rows_go_on(text.drop_last(), Seq::empty());
    }
    if line.len() == 0 {
        assert(text + line =~= text);
        assert(rows(text).last() + line =~= rows(text).last());
        assert(rows(text).drop_last().push(rows(text).last()) =~= rows(text));
    } else {
        let front = line.drop_last();
        lemma_rows_go_on(text, front);
        assert((text + line).drop_last() =~= text + front);
        assert((text + line).last() == line.last());
        let before = rows(text + front);
        assert(before.last() == rows(text).last() + front);
        assert(before.drop_last() =~= rows(text).drop_last());
        assert((rows(text).last() + front).push(line.last()) =~= rows(text).last() + line);
    }
}

/// The row is a number in digits that reads as `place`, a comma, and the value.
pub open spec fn is_row(row: Seq<char>, place: int, value: Seq<char>) -> bool {
    exists|number: Seq<char>|
        {
            &&& #[trigger] reading(number) == place
            &&& all_digits(number)
            &&& number[0] != '0'
            &&& row == number.push(',') + value
        }
}

/// The results file reads back: behind the heading it has one row per measurement, and nothing
/// else. The row at place `i` is the number `i`, a comma and the value of measurement `i`.
pub proof fn law_results_read_back(heading: Seq<char>, values: Seq<Seq<char>>, n: nat)
    requires
        unbroken(heading),
        n <= values.len(),
        forall|i: int| 0 <= i < values.len() ==> unbroken(#[trigger] values[i]),
    ensures
        ({
            let r = rows(heading.push('\n') + csv_lines(values, n));
            &&& r.len() == n + 2
            &&& r[0] == heading
            &&& r.last() == Seq::<char>::empty()
            &&& forall|i: int| 1 <= i <= n ==> is_row(#[trigger] r[i], i, values[i - 1])
        }),
    decreases n,
{
    let text = heading.push('\n') + csv_lines(values, n);
    let r = rows(text);
    if n == 0 {
        let none = Seq::<char>::empty();
        lemma_rows_go_on(none, heading);
        assert(none + heading =~= heading);
        assert(rows(none) =~= seq![none]);
        assert(rows(heading) =~= seq![heading]);
        assert(text =~= heading.push('\n'));
        assert(text.drop_last() =~= heading);
        assert(text.last() == '\n');
        assert(r == rows(heading).push(none));
        assert(r.len() == 2 && r[0] == heading && r.last() == none);
    } else {
        let before = heading.push('\n') + csv_lines(values, (n - 1) as nat);
        let s = rows(before);
        let number = decimal(n);
        let line = number.push(',') + values[n - 1];
        law_results_read_back(heading, values, (n - 1) as nat);
        law_decimal_reads_back(n);
        assert(unbroken(line)) by {
            assert forall|i: int| 0 <= i < line.len() implies #[trigger] line[i] != '\n' by {
                if i < number.len() {
                    assert('0' <= number[i]);
                } else if i > number.len() {
                    assert(values[n - 1][i - number.len() - 1] != '\n');
                }
            }
        }
        lemma_rows_go_on(before, line);
        assert(text =~= (before + line).push('\n'));
        assert(text.drop_last() =~= before + line);
        assert(s.last() == Seq::<char>::empty());
        assert(s.last() + line =~= line);
        assert(text.last() == '\n');
        assert(r == s.drop_last().push(line).push(Seq::empty()));
        assert(r.len() == n + 2);
        assert(r[0] == s[0]);
        assert(r.last() == Seq::<char>::empty());
        assert forall|i: int| 1 <= i <= n implies is_row(#[trigger] r[i], i, values[i - 1]) by {
            if i == n {
                assert(reading(number) == i);
                assert(r[i] == line);
            } else {
                assert(r[i] == s[i]);
            }
        }
    }
}

/// The contents of the results file: a heading, then one line per measurement with its number,
/// from one on, and its value as it is written in `values`. Without measurements there is
/// nothing to save.
pub fn csv_contents(values: &Vec<String>) -> (r: Result<String, String>)
    ensures
        r is Err <==> values.len() == 0,
        r matches Err(e) ==> e@ == "No measurements to save"@,
        r matches Ok(contents) ==> contents@ == "measurement,latency_ms\n"@ + csv_lines(
            texts(values@),
            values.len() as nat,
        ),
{
    if values.len() == 0 {
        return Err("No measurements to save".to_string());
    }
    let mut contents = "measurement,latency_ms\n".to_string();
    let ghost heading = contents@;
    let mut i: usize = 0;
    proof {
        reveal_strlit(",");
        reveal_strlit("\n");
        assert(heading + Seq::<char>::empty() =~= heading);
    }
    while i < values.len()
        invariant
            i <= values.len(),
            ","@ =~= seq![','],
            "\n"@ =~= seq!['\n'],
            contents@ == heading + csv_lines(texts(values@), i as nat),
        decreases values.len() - i,
    {
        append_decimal(&mut contents, i + 1);
        contents.append(",");
        contents.append(values[i].as_str());
        contents.append("\n");
        i += 1;
        proof {
            assert(texts(values@)[i - 1] == values@[i - 1]@);
            assert(contents@ =~= heading + csv_lines(texts(values@), i as nat));
        }
    }
    Ok(contents)
}

/// The dialog that saves the results.
pub struct SaveDialog {
    /// The dialog is shown.
    pub open: bool,
    /// The name entered so far.
    pub filename: String,
    /// What became of the last attempt.
    pub message: Option<String>,
}

impl SaveDialog {
    /// A dialog that was not opened yet.
    pub fn new() -> (r: SaveDialog)
        ensures
            !r.open,
            r.filename@ == Seq::<char>::empty(),
            r.message is None,
    {
        SaveDialog { open: false, filename: String::new(), message: None }
    }

    /// Opens the dialog afresh.
    pub fn show(&mut self)
        ensures
            final(self).open,
            final(self).filename@ == Seq::<char>::empty(),
            final(self).message is None,
    {
        self.open = true;
        self.filename = String::new();
        self.message = None;
    }

    /// Whether there is a name to save under.
    pub fn can_save(&self) -> (r: bool)
        ensures
            r == (self.filename@.len() > 0),
    {
        self.filename.as_str().unicode_len() > 0
    }

    /// Closes the dialog with a message on what became of the attempt.
    pub fn finish(&mut self, outcome: Result<(), String>)
        ensures
            !final(self).open,
            final(self).filename == old(self).filename,
            final(self).message matches Some(m) && m@ == (match outcome {
                Ok(()) => "Saved to "@ + csv_name(old(self).filename@),
                Err(e) => e@,
            }),
    {
        match outcome {
            Ok(()) => {
                let mut text = "Saved to ".to_string();
                let path = csv_path(self.filename.as_str());
                text.append(path.as_str());
                self.message = Some(text);
            },
            Err(e) => {
                self.message = Some(e);
            },
        }
        self.open = false;
    }

    /// Closes the dialog.
    pub fn cancel(&mut self)
        ensures
            *final(self) == (SaveDialog { open: false, ..*old(self) }),
    {
        self.open = false;
    }
}

} // verus!
