//! A calibration without a window: so many probes, one after the other, and their results.

use vstd::prelude::*;

use crate::float_bits::{Float32, Float64, Real};
use crate::ranking::{in_order, law_in_order, sortable, sorted};
use crate::state::{silence, MeasurementPhase, SharedState};

verus! {

/// How many probes a calibration plays.
pub const CALIBRATION_PROBES: usize = 10;

/// How long a probe is listened for, in nanoseconds.
pub const LISTEN_LIMIT_NANOS: u64 = 5_000_000_000;

/// What the calibration does next.
#[derive(Clone, Copy, Debug, PartialEq, Eq, Structural)]
pub enum RunStep {
    /// Request the next probe.
    Request,
    /// Wait a little and look whether the probe was played.
    AwaitListening,
    /// Look at the clock.
    CheckClock,
    /// Wait a little and look for the probe.
    Search,
    /// Pause before the next probe.
    Pause,
    /// All probes were played.
    Done,
}

/// A probe that was found, in milliseconds.
#[derive(Clone, Copy, Debug, PartialEq, Eq, Structural)]
pub struct Found {
    /// The latency from the converter back to the capture.
    pub latency_ms: Float64,
    /// The time from the start of the capture to the converter.
    pub output_delay_ms: Float64,
}

/// What became of a step.
#[derive(Clone, Copy, Debug, PartialEq, Eq, Structural)]
pub enum RunEvent {
    /// The probe was requested.
    Requested,
    /// The measurement stands in this phase.
    Phase(MeasurementPhase),
    /// So many nanoseconds have passed since the listening began.
    Clock(u64),
    /// The probe was looked for.
    Searched(Option<Found>),
    /// The pause is over.
    Paused,
}

/// A calibration in progress.
pub struct CalibrationRun {
    /// What to do next.
    pub step: RunStep,
    /// How many probes are behind.
    pub round: usize,
    /// The latencies that were found, in the order in which they were.
    pub measurements: Vec<Float64>,
    /// How many probes were not found in time.
    pub miss_count: u32,
    /// The output delay of the last probe that was found.
    pub output_delay_ms: Float64,
}

/// What a calibration found, if it found anything.
pub struct RunSummary {
    /// The smallest latency.
    pub min: Float64,
    /// The middle latency, the upper one of two.
    pub median: Float64,
    /// The largest latency.
    pub max: Float64,
    /// The latencies from the smallest to the largest.
    pub sorted: Vec<Float64>,
}

impl CalibrationRun {
    /// Every probe behind was either found or missed, and the one at hand is accounted for once
    /// it comes to the pause.
    pub open spec fn wf(self) -> bool {
        &&& self.round <= CALIBRATION_PROBES
        &&& self.step == RunStep::Done <==> self.round == CALIBRATION_PROBES
        &&& self.measurements.len() + self.miss_count == self.round + (if self.step
            == RunStep::Pause {
            1int
        } else {
            0int
        })
    }

    /// A calibration before its first probe.
    pub fn new() -> (r: CalibrationRun)
        ensures
            r.wf(),
            r.step == RunStep::Request,
            r.round == 0,
            r.measurements@ == Seq::<Float64>::empty(),
            r.miss_count == 0,
            r.output_delay_ms == (Float64 { bits: 0 }),
    {
        CalibrationRun {
            step: RunStep::Request,
            round: 0,
            measurements: Vec::new(),
            miss_count: 0,
            output_delay_ms: Float64::zero(),
        }
    }

    /// Takes in what became of a step. Events that do not belong to the step change nothing.
    pub fn advance(&mut self, event: RunEvent)
        requires
            old(self).wf(),
        ensures
            final(self).wf(),
            advanced(*old(self), event, *final(self)),
            match (old(self).step, event) {
                (RunStep::Request, RunEvent::Requested) => *final(self) == (CalibrationRun {
                    step: RunStep::AwaitListening,
                    ..*old(self)
                }),
                (RunStep::AwaitListening, RunEvent::Phase(MeasurementPhase::Listening)) => {
                    *final(self) == (CalibrationRun { step: RunStep::CheckClock, ..*old(self) })
                },
                (RunStep::CheckClock, RunEvent::Clock(elapsed)) => *final(self) == (if elapsed
                    < LISTEN_LIMIT_NANOS {
                    CalibrationRun { step: RunStep::Search, ..*old(self) }
                } else {
                    CalibrationRun {
                        step: RunStep::Pause,
                        miss_count: (old(self).miss_count + 1) as u32,
                        ..*old(self)
                    }
                }),
                (RunStep::Search, RunEvent::Searched(None)) => *final(self) == (CalibrationRun {
                    step: RunStep::CheckClock,
                    ..*old(self)
                }),
                (RunStep::Search, RunEvent::Searched(Some(found))) => {
                    &&& final(self).measurements@ == old(self).measurements@.push(found.latency_ms)
                    &&& *final(self) == (CalibrationRun {
                        step: RunStep::Pause,
                        measurements: final(self).measurements,
                        output_delay_ms: found.output_delay_ms,
                        ..*old(self)
                    })
                },
                (RunStep::Pause, RunEvent::Paused) => *final(self) == (CalibrationRun {
                    step: if old(self).round + 1 == CALIBRATION_PROBES {
                        RunStep::Done
                    } else {
                        RunStep::Request
                    },
                    round: (old(self).round + 1) as usize,
                    ..*old(self)
                }),
                _ => *final(self) == *old(self),
            },
    {
        match self.step {
            RunStep::Request => {
                if let RunEvent::Requested = event {
                    self.step = RunStep::AwaitListening;
                }
            },
            RunStep::AwaitListening => {
                if let RunEvent::Phase(phase) = event {
                    if phase == MeasurementPhase::Listening {
                        self.step = RunStep::CheckClock;
                    }
                }
            },
            RunStep::CheckClock => {
                if let RunEvent::Clock(elapsed) = event {
                    if elapsed < LISTEN_LIMIT_NANOS {
                        self.step = RunStep::Search;
                    } else {
                        self.miss_count = self.miss_count + 1;
                        self.step = RunStep::Pause;
                    }
                }
            },
            RunStep::Search => {
                if let RunEvent::Searched(result) = event {
                    match result {
                        None => {
                            self.step = RunStep::CheckClock;
                        },
                        Some(found) => {
                            self.measurements.push(found.latency_ms);
                            self.output_delay_ms = found.output_delay_ms;
                            self.step = RunStep::Pause;
                        },
                    }
                }
            },
            RunStep::Pause => {
                if let RunEvent::Paused = event {
                    self.round = self.round + 1;
                    self.step = if self.round == CALIBRATION_PROBES {
                        RunStep::Done
                    } else {
                        RunStep::Request
                    };
                }
            },
            RunStep::Done => {},
        }
    }

    /// The extremes and the median of the latencies, if there are any.
    pub fn summary(&self) -> (r: Option<RunSummary>)
        requires
            sortable(self.measurements@),
        ensures
            r is None <==> self.measurements.len() == 0,
            r matches Some(summary) ==> {
                &&& summary.sorted@ == in_order(self.measurements@)
                &&& summary.min == summary.sorted[0]
                &&& summary.median == summary.sorted[summary.sorted.len() as int / 2]
                &&& summary.max == summary.sorted[summary.sorted.len() - 1]
            },
    {
        if self.measurements.len() == 0 {
            return None;
        }
        let sorted = sorted(&self.measurements);
        proof {
            law_in_order(self.measurements@);
        }
        let n: usize = sorted.len();
        Some(RunSummary { min: sorted[0], median: sorted[n / 2], max: sorted[n - 1], sorted })
    }
}

/// `after` is what an event makes of a calibration.
pub open spec fn advanced(before: CalibrationRun, event: RunEvent, after: CalibrationRun) -> bool {
    match (before.step, event) {
        (RunStep::Request, RunEvent::Requested) => after == (CalibrationRun {
            step: RunStep::AwaitListening,
            ..before
        }),
        (RunStep::AwaitListening, RunEvent::Phase(MeasurementPhase::Listening)) => after == (
        CalibrationRun { step: RunStep::CheckClock, ..before }),
        (RunStep::CheckClock, RunEvent::Clock(elapsed)) => after == (if elapsed
            < LISTEN_LIMIT_NANOS {
            CalibrationRun { step: RunStep::Search, ..before }
        } else {
            CalibrationRun {
                step: RunStep::Pause,
                miss_count: (before.miss_count + 1) as u32,
                ..before
            }
        }),
        (RunStep::Search, RunEvent::Searched(None)) => after == (CalibrationRun {
            step: RunStep::CheckClock,
            ..before
        }),
        (RunStep::Search, RunEvent::Searched(Some(found))) => {
            &&& after.measurements@ == before.measurements@.push(found.latency_ms)
            &&& after == (CalibrationRun {
                step: RunStep::Pause,
                measurements: after.measurements,
                output_delay_ms: found.output_delay_ms,
                ..before
            })
        },
        (RunStep::Pause, RunEvent::Paused) => after == (CalibrationRun {
            step: if before.round + 1 == CALIBRATION_PROBES {
                RunStep::Done
            } else {
                RunStep::Request
            },
            round: (before.round + 1) as usize,
            ..before
        }),
        _ => after == before,
    }
}

/// An event that a calibration took in.
pub struct RunTaken {
    /// The calibration before.
    pub before: CalibrationRun,
    /// The event.
    pub event: RunEvent,
    /// The calibration after.
    pub after: CalibrationRun,
}

impl RunTaken {
    /// A probe was requested.
    pub open spec fn requests(self) -> bool {
        self.before.step == RunStep::Request && self.event is Requested
    }

    /// The clock showed five seconds or more while the probe was listened for.
    pub open spec fn times_out(self) -> bool {
        self.before.step == RunStep::CheckClock && (self.event matches RunEvent::Clock(elapsed)
            && elapsed >= 5_000_000_000)
    }

    /// The probe that was found, if one was.
    pub open spec fn finds(self) -> Option<Found> {
        match self.event {
            RunEvent::Searched(result) => if self.before.step == RunStep::Search {
                result
            } else {
                None
            },
            _ => None,
        }
    }
}

/// The events of a calibration from its start on, one after the other.
pub open spec fn ran_in_turn(run: Seq<RunTaken>) -> bool {
    &&& run.len() > 0
    &&& run[0].before.step == RunStep::Request
    &&& run[0].before.round == 0
    &&& run[0].before.measurements.len() == 0
    &&& run[0].before.miss_count == 0
    &&& forall|k: int|
        0 <= k < run.len() ==> {
            &&& (#[trigger] run[k]).before.wf()
            &&& advanced(run[k].before, run[k].event, run[k].after)
        }
    &&& forall|j: int, k: int|
        0 <= j < run.len() && 0 <= k < run.len() && k == j + 1 ==> (#[trigger] run[j]).after == (
        #[trigger] run[k]).before
}

/// How many probes were requested.
pub open spec fn requested(run: Seq<RunTaken>) -> nat
    decreases run.len(),
{
    if run.len() == 0 {
        0
    } else {
        requested(run.drop_last()) + (if run.last().requests() {
            1nat
        } else {
            0nat
        })
    }
}

/// How often the time to listen ran out.
pub open spec fn timed_out(run: Seq<RunTaken>) -> nat
    decreases run.len(),
{
    if run.len() == 0 {
        0
    } else {
        timed_out(run.drop_last()) + (if run.last().times_out() {
            1nat
        } else {
            0nat
        })
    }
}

/// The latencies of the probes that were found.
pub open spec fn latencies_found(run: Seq<RunTaken>) -> Seq<Float64>
    decreases run.len(),
{
    if run.len() == 0 {
        Seq::empty()
    } else {
        match run.last().finds() {
            Some(found) => latencies_found(run.drop_last()).push(found.latency_ms),
            None => latencies_found(run.drop_last()),
        }
    }
}

/// The measurements of a calibration are the latencies of the probes that were found, in their
/// order; its misses are the times that five seconds of listening ran out; and the probes behind
/// it and the one at hand are those that were requested.
pub proof fn law_calibration_tells_what_happened(run: Seq<RunTaken>)
    requires
        ran_in_turn(run),
    ensures
        ({
            let after = run.last().after;
            &&& after.measurements@ == latencies_found(run)
            &&& after.miss_count == timed_out(run)
            &&& requested(run) == after.round + (if after.step == RunStep::Request || after.step
                == RunStep::Done {
                0int
            } else {
                1int
            })
        }),
    decreases run.len(),
{
    let n = run.len() as int;
    let last = run[n - 1];
    let front = run.drop_last();
    assert(last.before.wf() && advanced(last.before, last.event, last.after));
    if n > 1 {
        assert forall|k: int| 0 <= k < front.len() implies #[trigger] front[k] == run[k] by {}
        law_calibration_tells_what_happened(front);
        assert(front.last() == run[n - 2]);
        assert(run[n - 2].after == last.before);
    } else {
        assert(latencies_found(front) =~= last.before.measurements@);
        assert(requested(front) == 0 && timed_out(front) == 0);
    }
}

/// A calibration that is done has requested ten probes, and each was found or timed out.
pub proof fn law_calibration_requests_ten_probes(run: Seq<RunTaken>)
    requires
        ran_in_turn(run),
        run.last().after.wf(),
    ensures
        run.last().after.step == RunStep::Done ==> requested(run) == 10 && latencies_found(
            run,
        ).len() + timed_out(run) == 10,
        requested(run) <= 10,
{
    law_calibration_tells_what_happened(run);
}

/// Every step waits for one kind of event, and moves on with it: with the request to the waiting,
/// with the listening to the clock, with the clock to the search or, after five seconds, to the
/// pause, with the search to the pause or back to the clock, and with the pause to the next
/// request.
pub proof fn law_steps_follow_each_other(
    before: CalibrationRun,
    event: RunEvent,
    after: CalibrationRun,
)
    requires
        before.wf(),
        advanced(before, event, after),
    ensures
        after.step == RunStep::AwaitListening ==> before.step == RunStep::AwaitListening
            || before.step == RunStep::Request && event is Requested,
        after.step == RunStep::CheckClock ==> before.step == RunStep::CheckClock || before.step
            == RunStep::Search && event == RunEvent::Searched(None) || before.step
            == RunStep::AwaitListening && event == RunEvent::Phase(MeasurementPhase::Listening),
        after.step == RunStep::Search ==> before.step == RunStep::Search || before.step
            == RunStep::CheckClock && (event matches RunEvent::Clock(elapsed) && elapsed
            < 5_000_000_000),
        before.step == RunStep::Request && event is Requested ==> after.step
            == RunStep::AwaitListening,
        before.step == RunStep::AwaitListening && event == RunEvent::Phase(
            MeasurementPhase::Listening,
        ) ==> after.step == RunStep::CheckClock,
        before.step == RunStep::CheckClock && event is Clock ==> after.step == RunStep::Search
            || after.step == RunStep::Pause,
        before.step == RunStep::Search && event is Searched ==> after.step == RunStep::CheckClock
            || after.step == RunStep::Pause,
        before.step == RunStep::Pause && event is Paused ==> after.step == (if before.round == 9 {
            RunStep::Done
        } else {
            RunStep::Request
        }) && after.round == before.round + 1,
        before.step == RunStep::Search ==> (event matches RunEvent::Searched(Some(found))
            ==> after.output_delay_ms == found.output_delay_ms),
        before.step != RunStep::Search || event == RunEvent::Searched(None)
            ==> after.output_delay_ms == before.output_delay_ms,
{
}

/// When a calibration is done, each of its probes was either found or missed.
pub proof fn law_probes_accounted_for(run: CalibrationRun)
    requires
        run.wf(),
        run.step == RunStep::Done,
    ensures
        run.measurements.len() + run.miss_count == CALIBRATION_PROBES,
{
}

impl SharedState {
    /// Notes that both streams run, with an empty ring of ten seconds of input: listen five
    /// seconds of input, pause one.
    pub fn streams_started(&mut self, output_rate: u32, input_rate: u32)
        requires
            0 < input_rate * 10 <= usize::MAX,
        ensures
            final(self).capture_buffer@ == Seq::new(
                (input_rate * 10) as nat,
                |i: int| Float32 { bits: 0 },
            ),
            *final(self) == (SharedState {
                output_sample_rate: output_rate,
                input_sample_rate: input_rate,
                capture_buffer: final(self).capture_buffer,
                capture_write_pos: 0,
                streams_active: true,
                listen_timeout_samples: (input_rate * 5) as u64,
                inter_probe_gap_samples: input_rate as u64,
                ..*old(self)
            }),
            old(self).wf() ==> final(self).wf(),
    {
        self.output_sample_rate = output_rate;
        self.input_sample_rate = input_rate;
        self.capture_buffer = silence((input_rate as usize) * 10);
        self.capture_write_pos = 0;
        self.streams_active = true;
        self.listen_timeout_samples = (input_rate as u64) * 5;
        self.inter_probe_gap_samples = input_rate as u64;
    }

    /// Requests a probe.
    pub fn request_probe(&mut self)
        ensures
            *final(self) == (SharedState {
                phase: MeasurementPhase::Playing,
                probe_play_requested: true,
                ..*old(self)
            }),
            old(self).wf() ==> final(self).wf(),
    {
        self.phase = MeasurementPhase::Playing;
        self.probe_play_requested = true;
    }
}

} // verus!
