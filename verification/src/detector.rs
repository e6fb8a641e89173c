//! The course of one probe detection, from the coarse stage to the reported match.
//!
//! A detector says which numeric work comes next; its caller does that work and hands the result
//! back as an event. Every candidate of the coarse stage is refined in turn, and the best match of
//! all is reported.

use vstd::prelude::*;

use crate::detection::{
    best_match, coarse_candidates, coarse_window, fine_margin, fine_peak, fine_window,
    CoarseCandidate, CoarseWindow, FineMatch, FinePeak, FineWindow, ENVELOPE_RATE,
    NUM_COARSE_CANDIDATES, TRANSIENT_SKIP,
};
#[allow(unused_imports)]
use crate::detection::{
    below, fine_window_of, is_best_match, is_coarse_result, is_coarse_window, is_fine_peak,
    in_window, law_best_match_unique, law_candidates_cover_the_good_lags,
    law_candidates_were_tried, law_coarse_result_unique, law_coarse_stage_needs_a_good_lag,
    law_coarse_window_settles, law_fine_peak_is_the_first_of_the_largest, law_fine_peak_unique,
    law_fine_window_holds_the_lags_around, law_good_matches_are_reported,
    law_reported_match_is_best, FINE_NCC_THRESHOLD,
};
#[allow(unused_imports)]
use crate::dsp::{is_decimated, law_decimation_of_a_longer_signal, without_signs};
use crate::float_bits::{Float32, Float64};
#[allow(unused_imports)]
use crate::float_bits::{greater, Real};

verus! {

/// What a detector waits for.
pub enum DetectorStage {
    /// The correlations of the envelopes, one for each lag up to the largest.
    Coarse(CoarseWindow),
    /// The lag of this candidate in full-rate samples.
    Scaling(CoarseCandidate),
    /// The correlations of the full-rate signals, one for each lag of the window.
    Fine(FineWindow),
    /// The match between the samples around this peak of the window.
    Interpolating(FineWindow, FinePeak),
    /// Nothing: this is the outcome.
    Finished(Option<FineMatch>),
}

/// A piece of numeric work that was done.
pub enum DetectorEvent {
    /// The envelopes were correlated.
    Correlated(Vec<Float32>),
    /// A candidate's lag was counted in full-rate samples.
    Scaled(usize),
    /// The full-rate signals were correlated.
    FineCorrelated(Vec<Float64>),
    /// The peak was interpolated.
    Interpolated(FineMatch),
}

/// One probe detection.
pub struct Detector {
    /// Samples of the filtered capture.
    pub capture_len: usize,
    /// Samples of the filtered template.
    pub template_len: usize,
    /// The half-width of the fine windows.
    pub margin: usize,
    /// The energy of the filtered template.
    pub template_energy: Float64,
    /// The lags to refine.
    pub candidates: Vec<CoarseCandidate>,
    /// How many of the candidates were dealt with.
    pub done: usize,
    /// The matches found so far.
    pub matches: Vec<FineMatch>,
    /// What comes next.
    pub stage: DetectorStage,
}

/// A window all of whose lags leave the template within the capture.
pub open spec fn fits_capture(w: FineWindow, capture_len: int, template_len: int) -> bool {
    w.start < w.end && w.end + template_len <= capture_len
}

impl Detector {
    pub open spec fn wf(self) -> bool {
        &&& self.candidates.len() <= NUM_COARSE_CANDIDATES
        &&& self.matches.len() <= self.done <= self.candidates.len()
        &&& match self.stage {
            DetectorStage::Coarse(w) => {
                &&& 0 < w.max_lag < usize::MAX - TRANSIENT_SKIP
                &&& self.candidates.len() == 0
            },
            DetectorStage::Scaling(candidate) => {
                &&& self.done < self.candidates.len()
                &&& candidate == self.candidates[self.done as int]
            },
            DetectorStage::Fine(w) => {
                &&& self.done < self.candidates.len()
                &&& fits_capture(w, self.capture_len as int, self.template_len as int)
            },
            DetectorStage::Interpolating(w, peak) => {
                &&& self.done < self.candidates.len()
                &&& fits_capture(w, self.capture_len as int, self.template_len as int)
                &&& w.start + peak.index <= w.end
            },
            DetectorStage::Finished(found) => {
                &&& self.done == self.candidates.len()
                &&& is_best_match(self.matches@, found)
            },
        }
    }

    /// How many more events can come at most.
    pub open spec fn steps_left(self) -> int {
        let refinements = self.candidates.len() - self.done;
        match self.stage {
            DetectorStage::Coarse(_) => 3 * NUM_COARSE_CANDIDATES + 1,
            DetectorStage::Scaling(_) => 3 * refinements,
            DetectorStage::Fine(_) => 3 * refinements - 1,
            DetectorStage::Interpolating(_, _) => 3 * refinements - 2,
            DetectorStage::Finished(_) => 0,
        }
    }

    /// The event is what the detector waits for.
    pub open spec fn awaits(self, event: DetectorEvent) -> bool {
        match (self.stage, event) {
            (DetectorStage::Coarse(w), DetectorEvent::Correlated(ncc_values)) => {
                ncc_values.len() == w.max_lag + 1
            },
            (DetectorStage::Scaling(_), DetectorEvent::Scaled(_)) => true,
            (DetectorStage::Fine(w), DetectorEvent::FineCorrelated(ncc_values)) => {
                ncc_values.len() == w.end - w.start + 1
            },
            (DetectorStage::Interpolating(_, _), DetectorEvent::Interpolated(_)) => true,
            _ => false,
        }
    }

    /// Both are detections of the same probe in the same capture.
    pub open spec fn same_signals(self, other: Detector) -> bool {
        &&& self.capture_len == other.capture_len
        &&& self.template_len == other.template_len
        &&& self.margin == other.margin
        &&& self.template_energy == other.template_energy
    }

    /// The detector is at the start of the next candidate, or at the outcome where there is none.
    pub open spec fn between_candidates(self) -> bool {
        if self.done < self.candidates.len() {
            self.stage == DetectorStage::Scaling(self.candidates[self.done as int])
        } else {
            self.stage matches DetectorStage::Finished(found) && is_best_match(
                self.matches@,
                found,
            )
        }
    }

    /// `next` is done with one more candidate and has these matches.
    pub open spec fn moves_on(self, next: Detector, matches: Seq<FineMatch>) -> bool {
        &&& next.done == self.done + 1
        &&& next.matches@ == matches
        &&& next.between_candidates()
    }

    /// `next` still works on the same candidate, in this stage.
    pub open spec fn stays(self, next: Detector, stage: DetectorStage) -> bool {
        &&& next.done == self.done
        &&& next.matches@ == self.matches@
        &&& next.stage == stage
    }

    /// `next` is what an awaited event turns the detector into.
    pub open spec fn leads_to(self, event: DetectorEvent, next: Detector) -> bool {
        &&& self.same_signals(next)
        &&& !(event is Correlated) ==> next.candidates@ == self.candidates@
        &&& match event {
            DetectorEvent::Correlated(ncc_values) => {
                &&& next.done == 0
                &&& next.matches@ == self.matches@
                &&& if next.candidates.len() == 0 {
                    &&& is_coarse_result(ncc_values@, None)
                    &&& next.stage == DetectorStage::Finished(None)
                } else {
                    &&& is_coarse_result(ncc_values@, Some(next.candidates@))
                    &&& next.between_candidates()
                }
            },
            DetectorEvent::Scaled(coarse_lag) => {
                match fine_window_of(
                    self.capture_len as int,
                    self.template_len as int,
                    coarse_lag as int,
                    self.margin as int,
                    self.template_energy,
                ) {
                    Some(w) => self.stays(next, DetectorStage::Fine(w)),
                    None => self.moves_on(next, self.matches@),
                }
            },
            DetectorEvent::FineCorrelated(ncc_values) => {
                match next.stage {
                    DetectorStage::Interpolating(w, peak) => {
                        &&& self.stage == DetectorStage::Fine(w)
                        &&& is_fine_peak(ncc_values@, Some(peak))
                        &&& self.stays(next, next.stage)
                    },
                    _ => {
                        &&& is_fine_peak(ncc_values@, None)
                        &&& self.moves_on(next, self.matches@)
                    },
                }
            },
            DetectorEvent::Interpolated(found) => self.moves_on(next, self.matches@.push(found)),
        }
    }

    /// The detector is at its start, on the envelope of a capture.
    pub open spec fn starts_on(
        self,
        env_capture: Seq<Float32>,
        env_template_len: int,
        requested_lag: int,
    ) -> bool {
        &&& self.candidates.len() == 0
        &&& self.done == 0
        &&& self.matches.len() == 0
        &&& match self.stage {
            DetectorStage::Coarse(w) => is_coarse_window(
                env_capture,
                env_template_len,
                requested_lag,
                Some(w),
            ),
            DetectorStage::Finished(found) => found is None && is_coarse_window(
                env_capture,
                env_template_len,
                requested_lag,
                None,
            ),
            _ => false,
        }
    }

    /// Both detectors look for the same probe and stand at the same point, on captures that may
    /// differ in length.
    pub open spec fn same_course(self, other: Detector) -> bool {
        &&& self.template_len == other.template_len
        &&& self.margin == other.margin
        &&& self.template_energy == other.template_energy
        &&& self.candidates@ == other.candidates@
        &&& self.done == other.done
        &&& self.matches@ == other.matches@
        &&& match (self.stage, other.stage) {
            (DetectorStage::Coarse(v), DetectorStage::Coarse(w)) => {
                &&& v.max_lag == w.max_lag
                &&& v.capture@ == w.capture@
            },
            _ => self.stage == other.stage,
        }
    }

    /// No lag that the detector tries or refines is above `max_lag`, in envelope samples behind
    /// the skipped ones.
    pub open spec fn lags_within(self, max_lag: int) -> bool {
        &&& self.stage matches DetectorStage::Coarse(w) ==> w.max_lag <= max_lag
        &&& forall|i: int|
            0 <= i < self.candidates.len() ==> (#[trigger] self.candidates[i]).lag <= max_lag
                + TRANSIENT_SKIP
    }

    /// Starts a detection on the envelope of a capture, with the template's envelope of
    /// `env_template_len` samples tried at lags up to `requested_lag`.
    pub fn new(
        env_capture: &Vec<Float32>,
        env_template_len: usize,
        requested_lag: usize,
        capture_len: usize,
        template_len: usize,
        sample_rate: u32,
        template_energy: Float64,
    ) -> (d: Detector)
        ensures
            d.wf(),
            d.capture_len == capture_len,
            d.template_len == template_len,
            d.margin == sample_rate as int / 100,
            d.template_energy == template_energy,
            d.starts_on(env_capture@, env_template_len as int, requested_lag as int),
    {
        assert(env_capture.len() <= usize::MAX);
        let stage = match coarse_window(env_capture, env_template_len, requested_lag) {
            Some(w) => DetectorStage::Coarse(w),
            None => DetectorStage::Finished(None),
        };
        Detector {
            capture_len,
            template_len,
            margin: fine_margin(sample_rate),
            template_energy,
            candidates: Vec::new(),
            done: 0,
            matches: Vec::new(),
            stage,
        }
    }

    /// Takes the result of the work that the detector waits for. Any other event changes nothing.
    pub fn advance(&mut self, event: DetectorEvent)
        requires
            old(self).wf(),
        ensures
            final(self).wf(),
            old(self).awaits(event) ==> old(self).leads_to(event, *final(self)),
            old(self).awaits(event) ==> final(self).steps_left() < old(self).steps_left(),
            !old(self).awaits(event) ==> *final(self) == *old(self),
    {
        match event {
            DetectorEvent::Correlated(ncc_values) => {
                if let DetectorStage::Coarse(w) = &self.stage {
                    if ncc_values.len() == w.max_lag + 1 {
                        self.take_coarse(&ncc_values);
                    }
                }
            },
            DetectorEvent::Scaled(coarse_lag) => {
                if let DetectorStage::Scaling(_) = &self.stage {
                    match fine_window(
                        self.capture_len,
                        self.template_len,
                        coarse_lag,
                        self.margin,
                        self.template_energy,
                    ) {
                        Some(w) => {
                            self.stage = DetectorStage::Fine(w);
                        },
                        None => {
                            self.done += 1;
                            self.turn();
                        },
                    }
                }
            },
            DetectorEvent::FineCorrelated(ncc_values) => {
                if let DetectorStage::Fine(w) = &self.stage {
                    let w: FineWindow = *w;
                    if ncc_values.len() > 0 && ncc_values.len() - 1 == w.end - w.start {
                        match fine_peak(&ncc_values) {
                            Some(peak) => {
                                self.stage = DetectorStage::Interpolating(w, peak);
                            },
                            None => {
                                self.done += 1;
                                self.turn();
                            },
                        }
                    }
                }
            },
            DetectorEvent::Interpolated(found) => {
                if let DetectorStage::Interpolating(_, _) = &self.stage {
                    self.matches.push(found);
                    self.done += 1;
                    self.turn();
                }
            },
        }
    }

    /// Goes on after the coarse stage.
    fn take_coarse(&mut self, ncc_values: &Vec<Float32>)
        requires
            old(self).wf(),
            old(self).stage matches DetectorStage::Coarse(w) && ncc_values.len() == w.max_lag + 1,
        ensures
            final(self).wf(),
            !(final(self).stage is Coarse),
            old(self).same_signals(*final(self)),
            final(self).done == 0,
            final(self).matches@ == old(self).matches@,
            if final(self).candidates.len() == 0 {
                &&& is_coarse_result(ncc_values@, None)
                &&& final(self).stage == DetectorStage::Finished(None)
            } else {
                &&& is_coarse_result(ncc_values@, Some(final(self).candidates@))
                &&& final(self).between_candidates()
            },
    {
        match coarse_candidates(ncc_values) {
            Some(candidates) => {
                self.candidates = candidates;
                self.turn();
            },
            None => {
                self.stage = DetectorStage::Finished(None);
            },
        }
    }

    /// Turns to the next candidate, or to the outcome.
    fn turn(&mut self)
        requires
            old(self).candidates.len() <= NUM_COARSE_CANDIDATES,
            old(self).matches.len() <= old(self).done <= old(self).candidates.len(),
        ensures
            final(self).wf(),
            old(self).same_signals(*final(self)),
            final(self).candidates@ == old(self).candidates@,
            final(self).done == old(self).done,
            final(self).matches@ == old(self).matches@,
            final(self).between_candidates(),
    {
        if self.done < self.candidates.len() {
            self.stage = DetectorStage::Scaling(self.candidates[self.done]);
        } else {
            self.stage = DetectorStage::Finished(best_match(&self.matches));
        }
    }
}

/// The events tell of the same result.
pub open spec fn same_event(a: DetectorEvent, b: DetectorEvent) -> bool {
    match (a, b) {
        (DetectorEvent::Correlated(v), DetectorEvent::Correlated(w)) => v@ == w@,
        (DetectorEvent::FineCorrelated(v), DetectorEvent::FineCorrelated(w)) => v@ == w@,
        _ => a == b,
    }
}

/// Detectors at the same point that are told the same stay together, where each fine window ends
/// inside both captures.
pub proof fn law_detectors_stay_together(
    a: Detector,
    b: Detector,
    event_a: DetectorEvent,
    event_b: DetectorEvent,
    next_a: Detector,
    next_b: Detector,
)
    requires
        a.wf(),
        b.wf(),
        a.same_course(b),
        same_event(event_a, event_b),
        a.awaits(event_a),
        a.leads_to(event_a, next_a),
        b.leads_to(event_b, next_b),
        event_a matches DetectorEvent::Scaled(lag) ==> {
            &&& lag + a.margin + a.template_len <= a.capture_len
            &&& lag + b.margin + b.template_len <= b.capture_len
        },
    ensures
        b.awaits(event_b),
        next_a.same_course(next_b),
{
    match event_a {
        DetectorEvent::Correlated(ncc_values) => {
            let ra = if next_a.candidates.len() == 0 {
                None
            } else {
                Some(next_a.candidates@)
            };
            let rb = if next_b.candidates.len() == 0 {
                None
            } else {
                Some(next_b.candidates@)
            };
            law_coarse_result_unique(ncc_values@, ra, rb);
            assert(next_a.candidates@ =~= next_b.candidates@);
        },
        DetectorEvent::FineCorrelated(ncc_values) => {
            let ra = match next_a.stage {
                DetectorStage::Interpolating(_, peak) => Some(peak),
                _ => None,
            };
            let rb = match next_b.stage {
                DetectorStage::Interpolating(_, peak) => Some(peak),
                _ => None,
            };
            law_fine_peak_unique(ncc_values@, ra, rb);
        },
        _ => {},
    }
    if let (DetectorStage::Finished(ra), DetectorStage::Finished(rb)) = (
        next_a.stage,
        next_b.stage,
    ) {
        if next_a.candidates.len() > 0 {
            law_best_match_unique(next_a.matches@, ra, rb);
        }
    }
}

/// One step of a detection.
pub struct DetectorStep {
    /// The detector before.
    pub before: Detector,
    /// What it was told.
    pub event: DetectorEvent,
    /// The detector after.
    pub after: Detector,
}

/// The steps of one detection, each told what it waited for.
pub open spec fn detected_in_turn(steps: Seq<DetectorStep>) -> bool {
    &&& forall|k: int|
        0 <= k < steps.len() ==> {
            &&& (#[trigger] steps[k]).before.wf()
            &&& steps[k].before.awaits(steps[k].event)
            &&& steps[k].before.leads_to(steps[k].event, steps[k].after)
        }
    &&& forall|j: int, k: int|
        0 <= j < steps.len() && 0 <= k < steps.len() && k == j + 1 ==> (#[trigger] steps[j]).after
            == (#[trigger] steps[k]).before
}

/// A lag in full-rate samples leads to the window of all lags within the margin of it at which the
/// template lies within the capture. Where there are not two of them, or the template is empty or
/// too faint, the candidate is done with.
pub proof fn law_windows_lie_around_the_scaled_lags(d: Detector, lag: usize, next: Detector)
    requires
        d.wf(),
        d.awaits(DetectorEvent::Scaled(lag)),
        d.leads_to(DetectorEvent::Scaled(lag), next),
    ensures
        next.matches@ == d.matches@,
        next.candidates@ == d.candidates@,
        match next.stage {
            DetectorStage::Fine(w) => {
                &&& next.done == d.done
                &&& forall|l: int|
                    l >= 0 ==> (#[trigger] in_window(w, l) <==> lag - d.margin <= l <= lag
                        + d.margin && l + d.template_len <= d.capture_len)
            },
            _ => {
                &&& next.done == d.done + 1
                &&& d.template_len == 0 || greater(
                    Float64 { bits: 0x3bc7_9ca1_0c92_4223 },
                    d.template_energy,
                ) || forall|l: int|
                    l >= 1 && lag - d.margin < l <= lag + d.margin ==> #[trigger] (l
                        + d.template_len) > d.capture_len
            },
        },
{
    law_fine_window_holds_the_lags_around(
        d.capture_len as int,
        d.template_len as int,
        lag as int,
        d.margin as int,
        d.template_energy,
    );
}

/// Correlations of a fine window that start with a number and reach 0.3 lead to the first of the
/// largest in the same window, to be interpolated; others do away with the candidate.
pub proof fn law_fine_correlations_lead_to_their_peak(
    d: Detector,
    ncc_values: Vec<Float64>,
    next: Detector,
)
    requires
        d.wf(),
        d.awaits(DetectorEvent::FineCorrelated(ncc_values)),
        d.leads_to(DetectorEvent::FineCorrelated(ncc_values), next),
        !ncc_values[0].nan(),
    ensures
        next.matches@ == d.matches@,
        next.candidates@ == d.candidates@,
        next.stage is Interpolating <==> exists|i: int|
            0 <= i < ncc_values.len() && !(#[trigger] ncc_values@[i]).nan() && ncc_values@[i].value()
                >= (Float64 { bits: 0x3fd3_3333_3333_3333 }).value(),
        next.stage matches DetectorStage::Interpolating(w, peak) ==> {
            &&& d.stage == DetectorStage::Fine(w)
            &&& next.done == d.done
            &&& peak.index < ncc_values.len()
            &&& peak.ncc == ncc_values@[peak.index as int]
            &&& forall|i: int|
                0 <= i < ncc_values.len() && !(#[trigger] ncc_values@[i]).nan() ==> {
                    &&& ncc_values@[i].value() <= peak.ncc.value()
                    &&& i < peak.index ==> ncc_values@[i].value() < peak.ncc.value()
                }
        },
        next.stage !is Interpolating ==> next.done == d.done + 1,
{
    let r = match next.stage {
        DetectorStage::Interpolating(_, peak) => Some(peak),
        _ => None,
    };
    law_fine_peak_is_the_first_of_the_largest(ncc_values@, r);
}

/// The correlations of the envelopes end a detection without a match where none reaches 0.4, and
/// otherwise lead to the lag of the largest, ten samples behind the capture's start.
pub proof fn law_correlations_lead_to_the_best_lag(
    d: Detector,
    ncc_values: Vec<Float32>,
    next: Detector,
)
    requires
        d.wf(),
        d.awaits(DetectorEvent::Correlated(ncc_values)),
        d.leads_to(DetectorEvent::Correlated(ncc_values), next),
    ensures
        (exists|lag: int|
            0 <= lag < ncc_values.len() && !(#[trigger] ncc_values@[lag]).nan()
                && ncc_values@[lag].value() >= (Float32 { bits: 0x3ecc_cccd }).value()) <==> next.stage
            is Scaling,
        next.stage !is Scaling ==> next.stage == DetectorStage::Finished(None),
        next.stage matches DetectorStage::Scaling(candidate) ==> {
            &&& 10 <= candidate.lag < ncc_values.len() + 10
            &&& candidate.ncc == ncc_values@[candidate.lag - 10]
            &&& forall|lag: int|
                0 <= lag < ncc_values.len() && !(#[trigger] ncc_values@[lag]).nan()
                    ==> ncc_values@[lag].value() <= candidate.ncc.value()
        },
{
    let r = if next.candidates.len() == 0 {
        None
    } else {
        Some(next.candidates@)
    };
    law_coarse_stage_needs_a_good_lag(ncc_values@, r);
    if r is Some {
        law_candidates_cover_the_good_lags(ncc_values@, next.candidates@);
        assert(next.candidates@[0] == next.candidates[0]);
    }
}

/// Where nothing is reported, no match correlates at 0.92 or better, if the first correlates by a
/// number.
pub proof fn law_unreported_matches_are_poor(d: Detector, i: int)
    requires
        d.wf(),
        d.stage == DetectorStage::Finished(None),
        0 <= i < d.matches.len(),
        !d.matches[0].ncc.nan(),
    ensures
        d.matches[i].ncc.nan() || d.matches[i].ncc.value() < (Float32 {
            bits: 0x3f6b_851f,
        }).value(),
{
    law_good_matches_are_reported(d.matches@, None);
    assert(d.matches@[i] == d.matches[i]);
}

/// How many candidates the steps turned to, by counting their lags in full-rate samples.
pub open spec fn candidates_scaled(steps: Seq<DetectorStep>) -> nat
    decreases steps.len(),
{
    if steps.len() == 0 {
        0
    } else {
        candidates_scaled(steps.drop_last()) + (if steps.last().event is Scaled {
            1nat
        } else {
            0nat
        })
    }
}

/// The matches that the steps were told of.
pub open spec fn matches_told(steps: Seq<DetectorStep>) -> Seq<FineMatch>
    decreases steps.len(),
{
    if steps.len() == 0 {
        Seq::empty()
    } else {
        match steps.last().event {
            DetectorEvent::Interpolated(found) => matches_told(steps.drop_last()).push(found),
            _ => matches_told(steps.drop_last()),
        }
    }
}

/// A detection keeps every match that it is told of, in their order, and turns to its candidates
/// one after the other, each once. It is over when it has turned to all of them.
pub proof fn law_every_candidate_is_refined(steps: Seq<DetectorStep>)
    requires
        detected_in_turn(steps),
        steps.len() > 0,
        steps[0].before.stage is Coarse,
    ensures
        ({
            let after = steps.last().after;
            &&& after.matches@ == matches_told(steps)
            &&& candidates_scaled(steps) == after.done + (if after.stage is Fine || after.stage
                is Interpolating {
                1int
            } else {
                0int
            })
            &&& after.done <= after.candidates.len()
            &&& after.stage is Finished <==> after.done == after.candidates.len()
            &&& after.stage matches DetectorStage::Scaling(candidate) ==> candidate
                == after.candidates[candidates_scaled(steps) as int]
        }),
    decreases steps.len(),
{
    let n = steps.len() as int;
    let last = steps[n - 1];
    let front = steps.drop_last();
    assert(last.before.wf());
    assert(last.before.awaits(last.event));
    assert(last.before.leads_to(last.event, last.after));
    if n > 1 {
        assert forall|k: int| 0 <= k < front.len() implies #[trigger] front[k] == steps[k] by {}
        law_every_candidate_is_refined(front);
        assert(front.last() == steps[n - 2]);
        assert(steps[n - 2].after == last.before);
        assert(last.before.stage is Finished <==> last.before.done
            == last.before.candidates.len());
    } else {
        assert(matches_told(front) =~= last.before.matches@);
        assert(candidates_scaled(front) == 0);
    }
    assert(last.after.matches@ =~= matches_told(steps));
    assert(!(last.event is Correlated) ==> last.after.candidates.len()
        == last.before.candidates.len()) by {
        if !(last.event is Correlated) {
            assert(last.after.candidates@.len() == last.before.candidates@.len());
        }
    }
}

/// The numeric work of a detection, as functions of what it works on. The probe that is looked for
/// and the sample rate stay the same.
pub struct Work {
    /// The capture behind the band-pass filter.
    pub filter: spec_fn(Seq<Float32>) -> Seq<Float32>,
    /// The rectified signal behind the low-pass filter.
    pub smooth: spec_fn(Seq<Float32>) -> Seq<Float32>,
    /// The correlations of a coarse window's envelope at the lags from zero up to the largest.
    pub correlate: spec_fn(Seq<Float32>, int) -> Seq<Float32>,
    /// An envelope lag in full-rate samples.
    pub scale: spec_fn(int) -> int,
    /// The correlations at the lags of a fine window, from the stretch of the filtered capture
    /// that the template covers at some of them.
    pub correlate_finely: spec_fn(Seq<Float32>) -> Seq<Float64>,
    /// The match around a peak.
    pub interpolate: spec_fn(FineWindow, FinePeak) -> FineMatch,
}

/// What comes out of a filter at any time depends on what went in until then.
pub open spec fn causal(filter: spec_fn(Seq<Float32>) -> Seq<Float32>) -> bool {
    &&& forall|s: Seq<Float32>| (#[trigger] filter(s)).len() == s.len()
    &&& forall|s: Seq<Float32>, more: Seq<Float32>|
        (#[trigger] filter(s + more)).take(s.len() as int) == filter(s)
}

/// What a detection looks for, and where.
pub struct Sought {
    /// Samples of the template's envelope.
    pub env_template_len: nat,
    /// Samples of the filtered template.
    pub template_len: nat,
    /// The energy of the filtered template.
    pub template_energy: Float64,
    /// Samples per second.
    pub sample_rate: nat,
    /// The largest lag, in envelope samples.
    pub requested_lag: nat,
}

impl Work {
    /// The filters are causal, and a lag in full-rate samples is never rounded up.
    pub open spec fn sound(self, sample_rate: int) -> bool {
        &&& causal(self.filter)
        &&& causal(self.smooth)
        &&& forall|lag: int|
            lag >= 0 ==> (#[trigger] (self.scale)(lag)) * ENVELOPE_RATE <= lag * sample_rate
    }

    /// `env` is the envelope of a capture.
    pub open spec fn is_envelope(
        self,
        capture: Seq<Float32>,
        sample_rate: int,
        env: Seq<Float32>,
    ) -> bool {
        let step = sample_rate / ENVELOPE_RATE as int;
        if step == 0 {
            env.len() == 0
        } else {
            is_decimated((self.smooth)(without_signs((self.filter)(capture))), step, env)
        }
    }

    /// The event tells the result of the work that the detector waits for.
    pub open spec fn done_in(self, step: DetectorStep, capture: Seq<Float32>) -> bool {
        match (step.before.stage, step.event) {
            (DetectorStage::Coarse(w), DetectorEvent::Correlated(ncc_values)) => ncc_values@ == (
            self.correlate)(w.capture@, w.max_lag as int),
            (DetectorStage::Scaling(candidate), DetectorEvent::Scaled(lag)) => lag == (
            self.scale)(candidate.lag as int),
            (DetectorStage::Fine(w), DetectorEvent::FineCorrelated(ncc_values)) => ncc_values@ == (
            self.correlate_finely)(
                (self.filter)(capture).subrange(
                    w.start as int,
                    w.end + step.before.template_len,
                ),
            ),
            (DetectorStage::Interpolating(w, peak), DetectorEvent::Interpolated(found)) => found
                == (self.interpolate)(w, peak),
            _ => false,
        }
    }
}

/// A detection of the probe in a capture from its start to its outcome.
pub struct Course {
    /// The capture.
    pub capture: Seq<Float32>,
    /// The capture's envelope.
    pub env: Seq<Float32>,
    /// The detector at its start.
    pub start: Detector,
    /// Its steps.
    pub steps: Seq<DetectorStep>,
}

impl Course {
    /// The detector at its end.
    pub open spec fn end(self) -> Detector {
        if self.steps.len() == 0 {
            self.start
        } else {
            self.steps.last().after
        }
    }

    /// The detection started on the capture, was told the results of its work, and came to its
    /// outcome.
    pub open spec fn runs(self, work: Work, sought: Sought) -> bool {
        &&& work.is_envelope(self.capture, sought.sample_rate as int, self.env)
        &&& self.start.wf()
        &&& self.start.starts_on(
            self.env,
            sought.env_template_len as int,
            sought.requested_lag as int,
        )
        &&& self.start.capture_len == self.capture.len()
        &&& self.start.template_len == sought.template_len
        &&& self.start.margin == sought.sample_rate as int / 100
        &&& self.start.template_energy == sought.template_energy
        &&& detected_in_turn(self.steps)
        &&& self.steps.len() > 0 ==> self.steps[0].before == self.start
        &&& forall|k: int|
            0 <= k < self.steps.len() ==> work.done_in(#[trigger] self.steps[k], self.capture)
        &&& self.end().stage is Finished
    }

    /// The capture fills the search window: its envelope covers the skipped samples, every lag
    /// asked for and the template, and the capture holds the template at every lag that can be
    /// refined, with the margin behind it.
    pub open spec fn fills_window(self, sought: Sought) -> bool {
        &&& TRANSIENT_SKIP + sought.requested_lag + sought.env_template_len <= self.env.len()
        &&& sought.template_len + (sought.requested_lag + TRANSIENT_SKIP + 10) * sought.sample_rate
            / ENVELOPE_RATE as int <= self.capture.len()
    }
}

proof fn lemma_lags_stay_within(step: DetectorStep, max_lag: int)
    requires
        step.before.lags_within(max_lag),
        step.before.awaits(step.event),
        step.before.leads_to(step.event, step.after),
    ensures
        step.after.lags_within(max_lag),
{
    let (before, after) = (step.before, step.after);
    assert(!(after.stage is Coarse));
    assert forall|i: int| 0 <= i < after.candidates.len() implies (
    #[trigger] after.candidates[i]).lag <= max_lag + TRANSIENT_SKIP by {
        if let DetectorEvent::Correlated(ncc_values) = step.event {
            law_candidates_were_tried(ncc_values@, after.candidates@, i);
        } else {
            assert(after.candidates@[i] == before.candidates@[i]);
        }
    }
}

/// The envelope of a longer capture starts with that of the shorter one.
proof fn lemma_envelope_goes_on(
    work: Work,
    sample_rate: int,
    capture: Seq<Float32>,
    more: Seq<Float32>,
    short: Seq<Float32>,
    long: Seq<Float32>,
)
    requires
        work.sound(sample_rate),
        sample_rate >= 0,
        work.is_envelope(capture, sample_rate, short),
        work.is_envelope(capture + more, sample_rate, long),
    ensures
        short.len() <= long.len(),
        long.take(short.len() as int) == short,
{
    let step = sample_rate / ENVELOPE_RATE as int;
    if step == 0 {
        assert(long.take(0) =~= short);
    } else {
        let n = capture.len() as int;
        let (f, g) = ((work.filter)(capture), (work.filter)(capture + more));
        assert(g.take(n) == f);
        let (u, v) = (without_signs(f), without_signs(g));
        assert(v =~= u + v.skip(n)) by {
            assert forall|i: int| 0 <= i < n implies u[i] == v[i] by {
                assert(g.take(n)[i] == g[i]);
            }
        }
        let (x, y) = ((work.smooth)(u), (work.smooth)(u + v.skip(n)));
        assert(y.take(n) == x);
        assert(y =~= x + y.skip(n));
        law_decimation_of_a_longer_signal(x, y.skip(n), step, short, long);
    }
}

proof fn lemma_window_inside(work: Work, sought: Sought, d: Detector, candidate: CoarseCandidate)
    requires
        d.wf(),
        d.stage == DetectorStage::Scaling(candidate),
        d.lags_within(sought.requested_lag as int),
        d.margin == sought.sample_rate as int / 100,
        work.sound(sought.sample_rate as int),
    ensures
        (work.scale)(candidate.lag as int) + d.margin <= (sought.requested_lag + TRANSIENT_SKIP
            + 10) * sought.sample_rate / ENVELOPE_RATE as int,
{
    let (rate, coarse) = (sought.sample_rate as int, candidate.lag as int);
    let reach = sought.requested_lag + TRANSIENT_SKIP;
    assert(coarse == d.candidates[d.done as int].lag);
    assert((work.scale)(coarse) * ENVELOPE_RATE <= coarse * rate);
    assert(coarse * rate <= reach * rate) by (nonlinear_arith)
        requires
            coarse <= reach,
            rate >= 0,
    ;
    assert((reach + 10) * rate == reach * rate + 10 * rate) by (nonlinear_arith);
}

/// Once the search window is full, what is captured later changes nothing: whatever follows a
/// capture that fills the window, the probe is found at the same place with the same correlation,
/// or not found, in the same number of steps.
pub proof fn law_later_samples_change_nothing(
    work: Work,
    sought: Sought,
    a: Course,
    b: Course,
    more: Seq<Float32>,
)
    requires
        work.sound(sought.sample_rate as int),
        b.capture == a.capture + more,
        a.runs(work, sought),
        b.runs(work, sought),
        a.fills_window(sought),
    ensures
        a.end().stage == b.end().stage,
        a.steps.len() == b.steps.len(),
{
    let (n, m) = (a.steps.len() as int, b.steps.len() as int);
    lemma_envelope_goes_on(
        work,
        sought.sample_rate as int,
        a.capture,
        more,
        a.env,
        b.env,
    );
    lemma_same_start(work, sought, a, b, more);
    let common = if n < m {
        n
    } else {
        m
    };
    if common > 0 {
        lemma_same_course_at(work, sought, a, b, more, common - 1);
        assert(a.steps[common - 1].after.same_course(b.steps[common - 1].after));
    }
    if n < m {
        assert(b.steps[n].before.awaits(b.steps[n].event));
        if n > 0 {
            assert(b.steps[n - 1].after == b.steps[n].before);
        }
    }
    if m < n {
        assert(a.steps[m].before.awaits(a.steps[m].event));
        if m > 0 {
            assert(a.steps[m - 1].after == a.steps[m].before);
        }
    }
}

proof fn lemma_same_start(work: Work, sought: Sought, a: Course, b: Course, more: Seq<Float32>)
    requires
        work.sound(sought.sample_rate as int),
        b.capture == a.capture + more,
        a.runs(work, sought),
        b.runs(work, sought),
        a.fills_window(sought),
    ensures
        a.start.same_course(b.start),
        a.start.lags_within(sought.requested_lag as int),
{
    lemma_envelope_goes_on(
        work,
        sought.sample_rate as int,
        a.capture,
        more,
        a.env,
        b.env,
    );
    let full = TRANSIENT_SKIP + sought.requested_lag + sought.env_template_len;
    assert(b.env.take(full) =~= b.env.take(a.env.len() as int).take(full));
    let wa = match a.start.stage {
        DetectorStage::Coarse(w) => Some(w),
        _ => None,
    };
    let wb = match b.start.stage {
        DetectorStage::Coarse(w) => Some(w),
        _ => None,
    };
    law_coarse_window_settles(
        a.env,
        b.env,
        sought.env_template_len as int,
        sought.requested_lag as int,
        wa,
        wb,
    );
    assert(a.start.candidates@ =~= b.start.candidates@);
    assert(a.start.matches@ =~= b.start.matches@);
}

proof fn lemma_same_course_at(
    work: Work,
    sought: Sought,
    a: Course,
    b: Course,
    more: Seq<Float32>,
    k: int,
)
    requires
        work.sound(sought.sample_rate as int),
        b.capture == a.capture + more,
        a.runs(work, sought),
        b.runs(work, sought),
        a.fills_window(sought),
        0 <= k < a.steps.len(),
        k < b.steps.len(),
    ensures
        a.steps[k].after.same_course(b.steps[k].after),
        a.steps[k].after.lags_within(sought.requested_lag as int),
        a.steps[k].after.same_signals(a.start),
        b.steps[k].after.same_signals(b.start),
    decreases k,
{
    let (s, t) = (a.steps[k], b.steps[k]);
    if k == 0 {
        lemma_same_start(work, sought, a, b, more);
    } else {
        lemma_same_course_at(work, sought, a, b, more, k - 1);
        assert(a.steps[k - 1].after == s.before);
        assert(b.steps[k - 1].after == t.before);
    }
    assert(s.before.same_course(t.before));
    assert(work.done_in(s, a.capture));
    assert(work.done_in(t, b.capture));
    match s.before.stage {
        DetectorStage::Scaling(candidate) => {
            lemma_window_inside(work, sought, s.before, candidate);
        },
        DetectorStage::Fine(w) => {
            let n = a.capture.len() as int;
            let (f, g) = ((work.filter)(a.capture), (work.filter)(a.capture + more));
            let end = w.end + s.before.template_len;
            assert(g.take(n) == f);
            assert(g.subrange(w.start as int, end) =~= g.take(n).subrange(w.start as int, end));
        },
        _ => {},
    }
    assert(same_event(s.event, t.event));
    law_detectors_stay_together(s.before, t.before, s.event, t.event, s.after, t.after);
    lemma_lags_stay_within(s, sought.requested_lag as int);
}

/// At most sixteen events are left to come, none exactly when the detector is finished; a finished
/// detector waits for no event.
pub proof fn law_detection_ends(d: Detector)
    requires
        d.wf(),
    ensures
        0 <= d.steps_left() <= 16,
        d.steps_left() == 0 <==> d.stage is Finished,
        d.stage is Finished ==> forall|event: DetectorEvent| !d.awaits(event),
{
}

/// A reported match is one that the detector was handed, it correlates no worse than a report
/// must, and no other match correlates better.
pub proof fn law_reported_match(d: Detector, found: FineMatch)
    requires
        d.wf(),
        d.stage == DetectorStage::Finished(Some(found)),
    ensures
        d.matches@.contains(found),
        !below(found.ncc, Float32 { bits: FINE_NCC_THRESHOLD }),
        forall|i: int|
            0 <= i < d.matches.len() ==> !greater((#[trigger] d.matches[i]).ncc, found.ncc),
{
    law_reported_match_is_best(d.matches@, found);
}

} // verus!
