//! What the audio callbacks do: playing the probe and recording the capture.

use vstd::prelude::*;

use crate::float_bits::Float32;
use crate::latency::StreamInstant;
use crate::state::{MeasurementPhase, SharedState};

verus! {

/// The part of the state that decides which sample is played next.
pub struct Voice {
    /// The probe should start playing.
    pub requested: bool,
    /// The probe is playing.
    pub playing: bool,
    /// The next sample of the probe to play.
    pub next: nat,
}

/// The voice after one frame of a probe of `len` samples.
pub open spec fn voice_after(v: Voice, len: nat) -> Voice {
    if v.playing {
        if v.next < len {
            Voice { next: v.next + 1, ..v }
        } else {
            Voice { playing: false, ..v }
        }
    } else if v.requested {
        Voice {
            requested: false,
            playing: true,
            next: if len > 0 {
                1
            } else {
                0
            },
        }
    } else {
        v
    }
}

/// The sample that one frame plays.
pub open spec fn voice_sample(v: Voice, probe: Seq<Float32>) -> Float32 {
    if v.playing && v.next < probe.len() {
        probe[v.next as int]
    } else if !v.playing && v.requested && probe.len() > 0 {
        probe[0]
    } else {
        Float32 { bits: 0 }
    }
}

/// The voice after `frames` frames.
pub open spec fn voice_after_frames(v: Voice, len: nat, frames: nat) -> Voice
    decreases frames,
{
    if frames == 0 {
        v
    } else {
        voice_after(voice_after_frames(v, len, (frames - 1) as nat), len)
    }
}

/// The samples of `frames` frames.
pub open spec fn voice_samples(v: Voice, probe: Seq<Float32>, frames: nat) -> Seq<Float32> {
    Seq::new(
        frames,
        |f: int| voice_sample(voice_after_frames(v, probe.len(), f as nat), probe),
    )
}

/// `samples` with each sample repeated once per channel.
pub open spec fn interleaved(samples: Seq<Float32>, channels: nat) -> Seq<Float32>
    recommends
        channels > 0,
{
    Seq::new(samples.len() * channels, |i: int| samples[i / channels as int])
}

impl SharedState {
    /// The voice of this state.
    pub open spec fn voice(self) -> Voice {
        Voice {
            requested: self.probe_play_requested,
            playing: self.probe_playing,
            next: self.probe_play_sample_idx as nat,
        }
    }

    /// Whether the next frame is the one at which a probe of `len` samples starts.
    pub open spec fn starts_probe(self, len: nat) -> bool {
        ||| self.probe_playing && self.probe_play_sample_idx == 0 && len > 0
        ||| !self.probe_playing && self.probe_play_requested
    }

    /// Whether the next frame is the first one behind a probe of `len` samples.
    pub open spec fn ends_probe(self, len: nat) -> bool {
        self.probe_playing && self.probe_play_sample_idx >= len
    }

    /// The state after one frame.
    ///
    /// The frame that starts the probe notes how much was captured so far and when it will be
    /// heard. The frame behind the probe begins to listen.
    pub open spec fn after_frame(
        self,
        len: nat,
        playback: StreamInstant,
        callback: StreamInstant,
        frame: nat,
    ) -> SharedState {
        let voice = voice_after(self.voice(), len);
        let starts = self.starts_probe(len);
        let ends = self.ends_probe(len);
        SharedState {
            probe_play_requested: voice.requested,
            probe_playing: voice.playing,
            probe_play_sample_idx: voice.next as usize,
            emission_write_pos: if starts {
                self.capture_write_pos
            } else {
                self.emission_write_pos
            },
            playback_instant: if starts {
                Some(playback)
            } else {
                self.playback_instant
            },
            output_callback_instant: if starts {
                Some(callback)
            } else {
                self.output_callback_instant
            },
            playback_frame_offset: if starts {
                frame as u32
            } else {
                self.playback_frame_offset
            },
            phase: if ends {
                MeasurementPhase::Listening
            } else {
                self.phase
            },
            phase_start_sample: if ends {
                self.capture_sample_counter
            } else {
                self.phase_start_sample
            },
            ..self
        }
    }

    /// The state after the first `frames` frames of a callback.
    pub open spec fn after_frames(
        self,
        len: nat,
        playback: StreamInstant,
        callback: StreamInstant,
        frames: nat,
    ) -> SharedState
        decreases frames,
    {
        if frames == 0 {
            self
        } else {
            self.after_frames(len, playback, callback, (frames - 1) as nat).after_frame(
                len,
                playback,
                callback,
                (frames - 1) as nat,
            )
        }
    }

    /// Plays one frame and returns its sample.
    fn output_frame(
        &mut self,
        probe_samples: &Vec<Float32>,
        playback: StreamInstant,
        callback: StreamInstant,
        frame: usize,
    ) -> (sample: Float32)
        ensures
            sample == voice_sample(old(self).voice(), probe_samples@),
            *final(self) == old(self).after_frame(
                probe_samples.len() as nat,
                playback,
                callback,
                frame as nat,
            ),
    {
        if self.probe_playing {
            let idx: usize = self.probe_play_sample_idx;
            if idx < probe_samples.len() {
                if idx == 0 {
                    self.emission_write_pos = self.capture_write_pos;
                    self.playback_instant = Some(playback);
                    self.output_callback_instant = Some(callback);
                    self.playback_frame_offset = #[verifier::truncate] (frame as u32);
                }
                self.probe_play_sample_idx = idx + 1;
                probe_samples[idx]
            } else {
                self.probe_playing = false;
                self.phase = MeasurementPhase::Listening;
                self.phase_start_sample = self.capture_sample_counter;
                Float32::zero()
            }
        } else if self.probe_play_requested {
            self.probe_play_requested = false;
            self.probe_playing = true;
            self.probe_play_sample_idx = 0;
            self.emission_write_pos = self.capture_write_pos;
            self.playback_instant = Some(playback);
            self.output_callback_instant = Some(callback);
            self.playback_frame_offset = #[verifier::truncate] (frame as u32);
            if probe_samples.len() > 0 {
                self.probe_play_sample_idx = 1;
                probe_samples[0]
            } else {
                Float32::zero()
            }
        } else {
            Float32::zero()
        }
    }

    /// Fills an output buffer of `len` samples in frames of `channels` samples: the probe where it
    /// is requested or playing, silence otherwise. What is left behind the last whole frame is
    /// not filled.
    pub fn render_output(
        &mut self,
        probe_samples: &Vec<Float32>,
        len: usize,
        channels: usize,
        playback: StreamInstant,
        callback: StreamInstant,
    ) -> (data: Vec<Float32>)
        requires
            channels > 0,
        ensures
            data@ == interleaved(
                voice_samples(
                    old(self).voice(),
                    probe_samples@,
                    (len as int / channels as int) as nat,
                ),
                channels as nat,
            ),
            data.len() <= len,
            *final(self) == old(self).after_frames(
                probe_samples.len() as nat,
                playback,
                callback,
                (len as int / channels as int) as nat,
            ),
            old(self).wf() ==> final(self).wf(),
    {
        let frames: usize = len / channels;
        let ghost start = *self;
        let ghost samples = voice_samples(start.voice(), probe_samples@, frames as nat);
        let mut data: Vec<Float32> = Vec::new();
        let mut frame: usize = 0;
        proof {
            assert(0 * channels == 0) by (nonlinear_arith);
            assert(data@ =~= interleaved(samples.take(0), channels as nat));
        }
        while frame < frames
            invariant
                frame <= frames,
                channels > 0,
                samples == voice_samples(start.voice(), probe_samples@, frames as nat),
                *self == start.after_frames(
                    probe_samples.len() as nat,
                    playback,
                    callback,
                    frame as nat,
                ),
                self.voice() == voice_after_frames(
                    start.voice(),
                    probe_samples.len() as nat,
                    frame as nat,
                ),
                data@ == interleaved(samples.take(frame as int), channels as nat),
            decreases frames - frame,
        {
            let sample = self.output_frame(probe_samples, playback, callback, frame);
            proof {
                assert(sample == samples[frame as int]);
            }
            let mut ch: usize = 0;
            let ghost before = data@;
            while ch < channels
                invariant
                    ch <= channels,
                    data@ == before + Seq::new(ch as nat, |i: int| sample),
                decreases channels - ch,
            {
                data.push(sample);
                ch += 1;
                proof {
                    assert(data@ =~= before + Seq::new(ch as nat, |i: int| sample));
                }
            }
            proof {
                lemma_interleaved_push(samples.take(frame as int), sample, channels as nat);
                assert(samples.take(frame as int).push(sample) =~= samples.take(frame + 1));
            }
            frame += 1;
        }
        proof {
            assert(samples.take(frames as int) =~= samples);
            assert(frames * channels <= len) by (nonlinear_arith)
                requires
                    frames == len / channels,
                    channels > 0,
            ;
            lemma_frames_keep(start, probe_samples.len() as nat, playback, callback, frames as nat);
        }
        data
    }
}

proof fn lemma_interleaved_push(samples: Seq<Float32>, sample: Float32, channels: nat)
    requires
        channels > 0,
    ensures
        interleaved(samples.push(sample), channels) == interleaved(samples, channels) + Seq::new(
            channels,
            |i: int| sample,
        ),
{
    let a = interleaved(samples.push(sample), channels);
    let b = interleaved(samples, channels) + Seq::new(channels, |i: int| sample);
    let n = samples.len();
    let c = channels as int;
    assert((n + 1) * channels == n * channels + channels) by (nonlinear_arith);
    assert(a.len() == b.len());
    assert forall|i: int| 0 <= i < a.len() implies a[i] == b[i] by {
        if i < n * channels {
            assert(0 <= i / c < n) by (nonlinear_arith)
                requires
                    0 <= i < n * c,
                    c > 0,
            ;
        } else {
            assert(i / c == n) by (nonlinear_arith)
                requires
                    n * c <= i < n * c + c,
                    c > 0,
            ;
        }
    }
    assert(a =~= b);
}

/// What a callback leaves alone.
proof fn lemma_frames_keep(
    st: SharedState,
    len: nat,
    playback: StreamInstant,
    callback: StreamInstant,
    frames: nat,
)
    ensures
        ({
            let after = st.after_frames(len, playback, callback, frames);
            &&& after.capture_buffer == st.capture_buffer
            &&& after.capture_write_pos == st.capture_write_pos
            &&& after.capture_sample_counter == st.capture_sample_counter
            &&& after.measurements == st.measurements
            &&& after.measurement_count == st.measurement_count
            &&& after.calibration_measurements == st.calibration_measurements
            &&& after.phase_start_sample == st.phase_start_sample || after.phase_start_sample
                == st.capture_sample_counter
        }),
    decreases frames,
{
    if frames > 0 {
        lemma_frames_keep(st, len, playback, callback, (frames - 1) as nat);
    }
}

/// The first frame that is behind a probe of `len` samples: a probe takes one frame at least.
pub open spec fn probe_frames(len: nat) -> nat {
    if len == 0 {
        1
    } else {
        len
    }
}

proof fn lemma_requested_voice(v: Voice, len: nat, frames: nat)
    requires
        v.requested,
        !v.playing,
        frames > 0,
    ensures
        voice_after_frames(v, len, frames) == (if frames <= probe_frames(len) {
            Voice {
                requested: false,
                playing: true,
                next: if frames < len {
                    frames
                } else {
                    len
                },
            }
        } else {
            Voice { requested: false, playing: false, next: len }
        }),
    decreases frames,
{
    if frames > 1 {
        lemma_requested_voice(v, len, (frames - 1) as nat);
    } else {
        assert(voice_after_frames(v, len, 0) == v);
    }
}

/// A requested probe is played once, from its first sample to its last, and then silence.
pub proof fn law_probe_played_whole(v: Voice, probe: Seq<Float32>, frames: nat)
    requires
        v.requested,
        !v.playing,
        frames >= probe.len(),
    ensures
        voice_samples(v, probe, frames) == probe + Seq::new(
            (frames - probe.len()) as nat,
            |i: int| Float32 { bits: 0 },
        ),
{
    let played = voice_samples(v, probe, frames);
    let expected = probe + Seq::new(
        (frames - probe.len()) as nat,
        |i: int| Float32 { bits: 0 },
    );
    assert forall|f: int| 0 <= f < frames implies played[f] == expected[f] by {
        if f > 0 {
            lemma_requested_voice(v, probe.len(), f as nat);
        } else {
            assert(voice_after_frames(v, probe.len(), 0) == v);
        }
    }
    assert(played =~= expected);
}

/// The voice of the state moves as the voice alone does.
proof fn lemma_state_voice(
    st: SharedState,
    len: nat,
    playback: StreamInstant,
    callback: StreamInstant,
    frames: nat,
)
    requires
        len <= usize::MAX,
    ensures
        st.after_frames(len, playback, callback, frames).voice() == voice_after_frames(
            st.voice(),
            len,
            frames,
        ),
    decreases frames,
{
    if frames > 0 {
        lemma_state_voice(st, len, playback, callback, (frames - 1) as nat);
    }
}

proof fn lemma_started(
    st: SharedState,
    len: nat,
    playback: StreamInstant,
    callback: StreamInstant,
    frames: nat,
)
    requires
        st.probe_play_requested,
        !st.probe_playing,
        len <= usize::MAX,
        frames > 0,
    ensures
        ({
            let after = st.after_frames(len, playback, callback, frames);
            &&& after.emission_write_pos == st.capture_write_pos
            &&& after.playback_instant == Some(playback)
            &&& after.output_callback_instant == Some(callback)
            &&& after.playback_frame_offset == 0
            &&& frames > probe_frames(len) ==> {
                &&& after.phase == MeasurementPhase::Listening
                &&& after.phase_start_sample == st.capture_sample_counter
                &&& !after.probe_play_requested
                &&& !after.probe_playing
            }
        }),
    decreases frames,
{
    let before = st.after_frames(len, playback, callback, (frames - 1) as nat);
    lemma_state_voice(st, len, playback, callback, (frames - 1) as nat);
    lemma_state_voice(st, len, playback, callback, frames);
    lemma_frames_keep(st, len, playback, callback, (frames - 1) as nat);
    lemma_requested_voice(st.voice(), len, frames);
    if frames > 1 {
        lemma_requested_voice(st.voice(), len, (frames - 1) as nat);
        lemma_started(st, len, playback, callback, (frames - 1) as nat);
        assert(!before.starts_probe(len));
    } else {
        assert(before == st);
    }
}

/// However the device splits its frames into callbacks, the same samples are played.
pub proof fn law_callbacks_join(
    st: SharedState,
    probe: Seq<Float32>,
    playback: StreamInstant,
    callback: StreamInstant,
    first: nat,
    second: nat,
)
    requires
        probe.len() <= usize::MAX,
    ensures
        voice_samples(st.voice(), probe, first) + voice_samples(
            st.after_frames(probe.len(), playback, callback, first).voice(),
            probe,
            second,
        ) == voice_samples(st.voice(), probe, first + second),
{
    lemma_state_voice(st, probe.len(), playback, callback, first);
    let v = st.voice();
    let w = voice_after_frames(v, probe.len(), first);
    let a = voice_samples(v, probe, first) + voice_samples(w, probe, second);
    let b = voice_samples(v, probe, first + second);
    assert forall|f: int| 0 <= f < first + second implies a[f] == b[f] by {
        if f >= first {
            lemma_voice_joins(v, probe.len(), first, (f - first) as nat);
        }
    }
    assert(a =~= b);
}

proof fn lemma_voice_joins(v: Voice, len: nat, first: nat, second: nat)
    ensures
        voice_after_frames(voice_after_frames(v, len, first), len, second) == voice_after_frames(
            v,
            len,
            first + second,
        ),
    decreases second,
{
    if second > 0 {
        lemma_voice_joins(v, len, first, (second - 1) as nat);
    }
}

/// Where nothing is requested or playing, a callback plays silence and changes nothing.
pub proof fn law_idle_output_is_silent(
    st: SharedState,
    probe: Seq<Float32>,
    playback: StreamInstant,
    callback: StreamInstant,
    frames: nat,
)
    requires
        !st.probe_play_requested,
        !st.probe_playing,
    ensures
        voice_samples(st.voice(), probe, frames) == Seq::new(
            frames,
            |i: int| Float32 { bits: 0 },
        ),
        st.after_frames(probe.len(), playback, callback, frames) == st,
{
    assert forall|f: nat| f <= frames implies #[trigger] voice_after_frames(
        st.voice(),
        probe.len(),
        f,
    ) == st.voice() by {
        lemma_idle(st, probe.len(), playback, callback, f);
    }
    lemma_idle(st, probe.len(), playback, callback, frames);
    assert(voice_samples(st.voice(), probe, frames) =~= Seq::new(
        frames,
        |i: int| Float32 { bits: 0 },
    ));
}

proof fn lemma_idle(
    st: SharedState,
    len: nat,
    playback: StreamInstant,
    callback: StreamInstant,
    frames: nat,
)
    requires
        !st.probe_play_requested,
        !st.probe_playing,
    ensures
        voice_after_frames(st.voice(), len, frames) == st.voice(),
        st.after_frames(len, playback, callback, frames) == st,
    decreases frames,
{
    if frames > 0 {
        lemma_idle(st, len, playback, callback, (frames - 1) as nat);
    }
}

/// The ring after `samples` were written to it, where `written` had been written before.
pub open spec fn ring_after(ring: Seq<Float32>, written: nat, samples: Seq<Float32>) -> Seq<Float32>
    decreases samples.len(),
{
    if samples.len() == 0 {
        ring
    } else {
        ring_after(ring, written, samples.drop_last()).update(
            (written + samples.len() - 1) % ring.len() as int,
            samples.last(),
        )
    }
}

/// `ring` holds the end of `history`, as much as it has room for.
pub open spec fn ring_holds(ring: Seq<Float32>, history: Seq<Float32>) -> bool {
    &&& ring.len() > 0
    &&& forall|k: int|
        0 <= k < history.len() && history.len() - ring.len() <= k ==> ring[k % ring.len() as int]
            == #[trigger] history[k]
}

/// The part of the ring from position `emission` to position `written`, both counted from the
/// first sample that ever went into it.
pub open spec fn ring_snapshot(ring: Seq<Float32>, emission: nat, written: nat) -> Seq<Float32>
    recommends
        ring.len() > 0,
{
    let from = emission as int % ring.len() as int;
    let to = written as int % ring.len() as int;
    if to > from {
        ring.subrange(from, to)
    } else if written > emission {
        ring.skip(from) + ring.take(to)
    } else {
        Seq::empty()
    }
}

/// `after` is the state `before` with samples of the input recorded.
pub open spec fn captured(before: SharedState, samples: Seq<Float32>, after: SharedState) -> bool {
    &&& before.capture_write_pos + samples.len() <= usize::MAX
    &&& before.capture_sample_counter + samples.len() <= u64::MAX
    &&& after.capture_buffer@ == ring_after(
        before.capture_buffer@,
        before.capture_write_pos as nat,
        samples,
    )
    &&& after == (SharedState {
        capture_buffer: after.capture_buffer,
        capture_write_pos: (before.capture_write_pos + samples.len()) as usize,
        capture_sample_counter: (before.capture_sample_counter + samples.len()) as u64,
        ..before
    })
}

impl SharedState {
    /// Records samples of the input, one per frame.
    pub fn capture(&mut self, mono: &Vec<Float32>)
        requires
            old(self).wf(),
            old(self).capture_write_pos + mono.len() <= usize::MAX,
            old(self).capture_sample_counter + mono.len() <= u64::MAX,
        ensures
            final(self).wf(),
            captured(*old(self), mono@, *final(self)),
    {
        let ghost start = *self;
        let n: usize = self.capture_buffer.len();
        let mut i: usize = 0;
        proof {
            assert(mono@.take(0) =~= Seq::<Float32>::empty());
        }
        while i < mono.len()
            invariant
                i <= mono.len(),
                n > 0,
                n == start.capture_buffer.len(),
                start.capture_write_pos + mono.len() <= usize::MAX,
                start.capture_sample_counter + mono.len() <= u64::MAX,
                self.capture_buffer@ == ring_after(
                    start.capture_buffer@,
                    start.capture_write_pos as nat,
                    mono@.take(i as int),
                ),
                self.capture_buffer.len() == n,
                *self == (SharedState {
                    capture_buffer: self.capture_buffer,
                    capture_write_pos: (start.capture_write_pos + i) as usize,
                    capture_sample_counter: (start.capture_sample_counter + i) as u64,
                    ..start
                }),
            decreases mono.len() - i,
        {
            let pos: usize = self.capture_write_pos % n;
            proof {
                assert(mono@.take(i + 1).drop_last() =~= mono@.take(i as int));
                assert(mono@.take(i + 1).last() == mono@[i as int]);
            }
            self.capture_buffer.set(pos, mono[i]);
            self.capture_write_pos = self.capture_write_pos + 1;
            self.capture_sample_counter = self.capture_sample_counter + 1;
            i += 1;
        }
        proof {
            assert(mono@.take(mono.len() as int) =~= mono@);
        }
    }

    /// What was captured since the probe started.
    pub fn capture_snapshot(&self) -> (r: Vec<Float32>)
        requires
            self.wf(),
        ensures
            r@ == ring_snapshot(
                self.capture_buffer@,
                self.emission_write_pos as nat,
                self.capture_write_pos as nat,
            ),
    {
        let n: usize = self.capture_buffer.len();
        let from: usize = self.emission_write_pos % n;
        let to: usize = self.capture_write_pos % n;
        let mut r: Vec<Float32> = Vec::new();
        if to > from {
            copy_range(&self.capture_buffer, from, to, &mut r);
        } else if self.capture_write_pos > self.emission_write_pos {
            copy_range(&self.capture_buffer, from, n, &mut r);
            copy_range(&self.capture_buffer, 0, to, &mut r);
            proof {
                assert(self.capture_buffer@.subrange(from as int, n as int)
                    =~= self.capture_buffer@.skip(from as int));
                assert(self.capture_buffer@.subrange(0, to as int) =~= self.capture_buffer@.take(
                    to as int,
                ));
            }
        }
        proof {
            assert(r@ =~= ring_snapshot(
                self.capture_buffer@,
                self.emission_write_pos as nat,
                self.capture_write_pos as nat,
            ));
        }
        r
    }
}

/// Appends the elements of `source` from `start` up to `end`.
fn copy_range(source: &Vec<Float32>, start: usize, end: usize, target: &mut Vec<Float32>)
    requires
        start <= end <= source.len(),
    ensures
        final(target)@ == old(target)@ + source@.subrange(start as int, end as int),
{
    let ghost before = target@;
    let mut i: usize = start;
    proof {
        assert(source@.subrange(start as int, start as int) =~= Seq::<Float32>::empty());
        assert(before + Seq::<Float32>::empty() =~= before);
    }
    while i < end
        invariant
            start <= i <= end <= source.len(),
            target@ == before + source@.subrange(start as int, i as int),
        decreases end - i,
    {
        target.push(source[i]);
        i += 1;
        proof {
            assert(target@ =~= before + source@.subrange(start as int, i as int));
        }
    }
}

/// Writing to a ring keeps its size, and it then holds the end of what was written in all.
pub proof fn law_ring_holds_history(
    ring: Seq<Float32>,
    history: Seq<Float32>,
    samples: Seq<Float32>,
)
    requires
        ring_holds(ring, history),
    ensures
        ring_after(ring, history.len(), samples).len() == ring.len(),
        ring_holds(ring_after(ring, history.len(), samples), history + samples),
    decreases samples.len(),
{
    if samples.len() == 0 {
        assert(history + samples =~= history);
    } else {
        let n = ring.len() as int;
        let front = samples.drop_last();
        let mid = ring_after(ring, history.len(), front);
        law_ring_holds_history(ring, history, front);
        let total = history + samples;
        let before = history + front;
        let at = (history.len() + samples.len() - 1) as int;
        let after = mid.update(at % n, samples.last());
        assert(before.len() == at && total.len() == at + 1);
        assert(0 <= at % n < n);
        assert forall|k: int|
            0 <= k < total.len() && total.len() - n <= k implies after[k % n]
            == #[trigger] total[k] by {
            assert(0 <= k % n < n);
            if k < at {
                assert(k % n != at % n) by (nonlinear_arith)
                    requires
                        n > 0,
                        at - n < k < at,
                ;
                assert(total[k] == before[k]);
                assert(mid[k % n] == before[k]);
            }
        }
    }
}

/// The snapshot is what was captured since the probe started, sample for sample, as long as the
/// ring has not overtaken it.
pub proof fn law_snapshot_is_capture_since_emission(
    ring: Seq<Float32>,
    history: Seq<Float32>,
    emission: nat,
)
    requires
        ring_holds(ring, history),
        emission < history.len() <= emission + ring.len(),
    ensures
        ring_snapshot(ring, emission, history.len()) == history.subrange(
            emission as int,
            history.len() as int,
        ),
{
    let n = ring.len() as int;
    let w = history.len() as int;
    let e = emission as int;
    let from = e % n;
    let to = w % n;
    let snapshot = ring_snapshot(ring, emission, history.len());
    let expected = history.subrange(e, w);
    let q = e / n;
    assert(e == q * n + from && 0 <= from < n) by (nonlinear_arith)
        requires
            n > 0,
            q == e / n,
            from == e % n,
    ;
    assert((q + 1) * n == q * n + n) by (nonlinear_arith);
    if from + (w - e) < n {
        assert(to == from + (w - e)) by (nonlinear_arith)
            requires
                n > 0,
                w == q * n + (from + (w - e)),
                0 <= from + (w - e) < n,
                to == w % n,
        ;
    } else {
        assert(to == from + (w - e) - n) by (nonlinear_arith)
            requires
                n > 0,
                w == (q + 1) * n + (from + (w - e) - n),
                0 <= from + (w - e) - n < n,
                to == w % n,
        ;
    }
    assert(snapshot.len() == w - e);
    assert forall|i: int| 0 <= i < w - e implies snapshot[i] == expected[i] by {
        let k = e + i;
        assert(ring[k % n] == history[k]);
        if from + i < n {
            assert(k % n == from + i) by (nonlinear_arith)
                requires
                    n > 0,
                    k == q * n + (from + i),
                    0 <= from + i < n,
            ;
        } else {
            assert(k % n == from + i - n) by (nonlinear_arith)
                requires
                    n > 0,
                    k == (q + 1) * n + (from + i - n),
                    0 <= from + i - n < n,
            ;
        }
    }
    assert(snapshot =~= expected);
}

/// The snapshot goes round the ring from the start of the probe to what was captured last, as long
/// as the ring has not overtaken it.
pub proof fn law_snapshot_goes_round(ring: Seq<Float32>, emission: nat, written: nat)
    requires
        ring.len() > 0,
        emission <= written <= emission + ring.len(),
    ensures
        ring_snapshot(ring, emission, written).len() == written - emission,
        forall|i: int|
            0 <= i < written - emission ==> #[trigger] ring_snapshot(ring, emission, written)[i]
                == ring[(emission + i) % ring.len() as int],
{
    let n = ring.len() as int;
    if emission < written {
        let history = Seq::new(written, |k: int| ring[k % n]);
        assert(ring_holds(ring, history));
        law_snapshot_is_capture_since_emission(ring, history, emission);
        let snapshot = ring_snapshot(ring, emission, written);
        assert forall|i: int| 0 <= i < written - emission implies #[trigger] snapshot[i] == ring[(
        emission + i) % n] by {
            assert(snapshot[i] == history[emission + i]);
        }
    }
}

/// What is captured behind the start of the probe is what the snapshot holds, whatever the ring
/// held before, as long as it fits into the ring.
pub proof fn law_snapshot_after_emission(ring: Seq<Float32>, emission: nat, samples: Seq<Float32>)
    requires
        0 < samples.len() <= ring.len(),
    ensures
        ring_snapshot(
            ring_after(ring, emission, samples),
            emission,
            emission + samples.len(),
        ) == samples,
{
    let n = ring.len() as int;
    let history = Seq::new(emission, |k: int| ring[k % n]);
    assert(ring_holds(ring, history));
    law_ring_holds_history(ring, history, samples);
    law_snapshot_is_capture_since_emission(
        ring_after(ring, emission, samples),
        history + samples,
        emission,
    );
    assert((history + samples).subrange(emission as int, (emission + samples.len()) as int)
        =~= samples);
}

/// Samples that are written in two goes end up as if written in one.
pub proof fn law_captures_join(
    ring: Seq<Float32>,
    written: nat,
    first: Seq<Float32>,
    second: Seq<Float32>,
)
    requires
        ring.len() > 0,
    ensures
        ring_after(ring, written, first).len() == ring.len(),
        ring_after(ring_after(ring, written, first), written + first.len(), second) == ring_after(
            ring,
            written,
            first + second,
        ),
    decreases first.len() + second.len(),
{
    if second.len() == 0 {
        assert(first + second =~= first);
        if first.len() > 0 {
            law_captures_join(ring, written, first.drop_last(), second);
        }
    } else {
        law_captures_join(ring, written, first, second.drop_last());
        assert((first + second).drop_last() =~= first + second.drop_last());
        assert((first + second).last() == second.last());
    }
}

/// What a callback of a stream was about.
pub enum StreamEvent {
    /// Frames were played.
    Output {
        /// How many.
        frames: nat,
        /// When the buffer reaches the converter.
        playback: StreamInstant,
        /// When the buffer was filled.
        callback: StreamInstant,
    },
    /// Samples were recorded.
    Input {
        /// The samples, one per frame.
        samples: Seq<Float32>,
    },
}

/// One callback of a stream.
pub struct StreamStep {
    /// The state before.
    pub before: SharedState,
    /// What it was about.
    pub event: StreamEvent,
    /// The state after.
    pub after: SharedState,
}

impl StreamStep {
    /// The callback did what callbacks do, with a probe of `len` samples.
    pub open spec fn taken(self, len: nat) -> bool {
        match self.event {
            StreamEvent::Output { frames, playback, callback } => self.after
                == self.before.after_frames(len, playback, callback, frames),
            StreamEvent::Input { samples } => captured(self.before, samples, self.after),
        }
    }

    /// The frames that were played.
    pub open spec fn frames(self) -> nat {
        match self.event {
            StreamEvent::Output { frames, .. } => frames,
            StreamEvent::Input { .. } => 0,
        }
    }

    /// The samples that were recorded.
    pub open spec fn samples(self) -> Seq<Float32> {
        match self.event {
            StreamEvent::Output { .. } => Seq::empty(),
            StreamEvent::Input { samples } => samples,
        }
    }
}

/// All that the callbacks change is the same.
pub open spec fn same_streams(a: SharedState, b: SharedState) -> bool {
    &&& a.voice() == b.voice()
    &&& a.phase == b.phase
    &&& a.phase_start_sample == b.phase_start_sample
    &&& a.emission_write_pos == b.emission_write_pos
    &&& a.playback_instant == b.playback_instant
    &&& a.output_callback_instant == b.output_callback_instant
    &&& a.playback_frame_offset == b.playback_frame_offset
    &&& a.capture_buffer@ == b.capture_buffer@
    &&& a.capture_write_pos == b.capture_write_pos
    &&& a.capture_sample_counter == b.capture_sample_counter
}

/// The callbacks came one after the other. Between two of them nothing was changed that the
/// callbacks change.
pub open spec fn streamed(steps: Seq<StreamStep>, len: nat) -> bool {
    &&& forall|k: int| 0 <= k < steps.len() ==> (#[trigger] steps[k]).taken(len)
    &&& forall|j: int, k: int|
        0 <= j < steps.len() && 0 <= k < steps.len() && k == j + 1 ==> same_streams(
            (#[trigger] steps[j]).after,
            (#[trigger] steps[k]).before,
        )
}

/// The first of the callbacks plays the start of a requested probe.
pub open spec fn starts_with_request(steps: Seq<StreamStep>) -> bool {
    &&& steps.len() > 0
    &&& steps[0].before.probe_play_requested
    &&& !steps[0].before.probe_playing
    &&& steps[0].frames() > 0
}

/// How many frames the callbacks played in all.
pub open spec fn frames_played(steps: Seq<StreamStep>) -> nat
    decreases steps.len(),
{
    if steps.len() == 0 {
        0
    } else {
        frames_played(steps.drop_last()) + steps.last().frames()
    }
}

/// What the callbacks recorded in all.
pub open spec fn samples_captured(steps: Seq<StreamStep>) -> Seq<Float32>
    decreases steps.len(),
{
    if steps.len() == 0 {
        Seq::empty()
    } else {
        samples_captured(steps.drop_last()) + steps.last().samples()
    }
}

/// The callback at `k` plays the first frame behind a probe of `len` samples.
pub open spec fn probe_ends_at(steps: Seq<StreamStep>, len: nat, k: int) -> bool {
    &&& 0 <= k < steps.len()
    &&& frames_played(steps.take(k)) <= probe_frames(len)
    &&& probe_frames(len) < frames_played(steps.take(k + 1))
}

/// `st` has noted the start of the probe as the first of the callbacks saw it.
pub open spec fn noted_start(steps: Seq<StreamStep>, st: SharedState) -> bool {
    &&& st.emission_write_pos == steps[0].before.capture_write_pos
    &&& steps[0].event matches StreamEvent::Output { playback, callback, .. } && {
        &&& st.playback_instant == Some(playback)
        &&& st.output_callback_instant == Some(callback)
    }
    &&& st.playback_frame_offset == 0
}

/// A voice whose probe has been started.
spec fn under_way(v: Voice, len: nat) -> bool {
    !v.requested && (v.playing ==> v.next > 0 || len == 0)
}

/// A callback that comes behind the start of the probe.
proof fn lemma_under_way(
    st: SharedState,
    len: nat,
    playback: StreamInstant,
    callback: StreamInstant,
    frames: nat,
)
    requires
        len <= usize::MAX,
        under_way(st.voice(), len),
    ensures
        ({
            let after = st.after_frames(len, playback, callback, frames);
            &&& under_way(after.voice(), len)
            &&& after.voice() == voice_after_frames(st.voice(), len, frames)
            &&& after.probe_playing ==> st.probe_playing
            &&& after.emission_write_pos == st.emission_write_pos
            &&& after.playback_instant == st.playback_instant
            &&& after.output_callback_instant == st.output_callback_instant
            &&& after.playback_frame_offset == st.playback_frame_offset
            &&& if st.probe_playing && !after.probe_playing {
                &&& after.phase == MeasurementPhase::Listening
                &&& after.phase_start_sample == st.capture_sample_counter
            } else {
                &&& after.phase == st.phase
                &&& after.phase_start_sample == st.phase_start_sample
            }
        }),
    decreases frames,
{
    if frames > 0 {
        lemma_under_way(st, len, playback, callback, (frames - 1) as nat);
        lemma_frames_keep(st, len, playback, callback, (frames - 1) as nat);
    }
    lemma_state_voice(st, len, playback, callback, frames);
}

proof fn lemma_streamed_front(steps: Seq<StreamStep>, len: nat)
    requires
        streamed(steps, len),
        steps.len() > 0,
    ensures
        streamed(steps.drop_last(), len),
{
    let front = steps.drop_last();
    assert forall|k: int| 0 <= k < front.len() implies #[trigger] front[k] == steps[k] by {}
}

proof fn lemma_probe_series(steps: Seq<StreamStep>, len: nat)
    requires
        streamed(steps, len),
        starts_with_request(steps),
        len <= usize::MAX,
    ensures
        frames_played(steps) > 0,
        steps.last().after.voice() == voice_after_frames(
            steps[0].before.voice(),
            len,
            frames_played(steps),
        ),
        noted_start(steps, steps.last().after),
        frames_played(steps) > probe_frames(len) ==> {
            &&& steps.last().after.phase == MeasurementPhase::Listening
            &&& exists|k: int| #[trigger]
                probe_ends_at(steps, len, k) && steps.last().after.phase_start_sample
                    == steps[k].before.capture_sample_counter
        },
    decreases steps.len(),
{
    let n = steps.len() as int;
    let last = steps[n - 1];
    let front = steps.drop_last();
    let v = steps[0].before.voice();
    let (played, total) = (frames_played(front), frames_played(steps));
    assert(last.taken(len));
    assert(steps.take(n) =~= steps);
    assert(steps.take(n - 1) =~= front);
    if n == 1 {
        assert(total == last.frames());
        if let StreamEvent::Output { frames, playback, callback } = last.event {
            lemma_started(last.before, len, playback, callback, frames);
            lemma_state_voice(last.before, len, playback, callback, frames);
        }
        if total > probe_frames(len) {
            assert(probe_ends_at(steps, len, 0));
        }
    } else {
        lemma_streamed_front(steps, len);
        assert(front[0] == steps[0]);
        lemma_probe_series(front, len);
        assert(front.last() == steps[n - 2]);
        assert(same_streams(steps[n - 2].after, last.before));
        lemma_requested_voice(v, len, played);
        lemma_requested_voice(v, len, total);
        assert(under_way(last.before.voice(), len));
        if let StreamEvent::Output { frames, playback, callback } = last.event {
            lemma_under_way(last.before, len, playback, callback, frames);
            lemma_voice_joins(v, len, played, frames);
        }
        if total > probe_frames(len) {
            if played > probe_frames(len) {
                let k = choose|k: int| #[trigger]
                    probe_ends_at(front, len, k) && front.last().after.phase_start_sample
                        == front[k].before.capture_sample_counter;
                assert(front.take(k) =~= steps.take(k));
                assert(front.take(k + 1) =~= steps.take(k + 1));
                assert(front[k] == steps[k]);
                assert(probe_ends_at(steps, len, k));
            } else {
                assert(probe_ends_at(steps, len, n - 1));
            }
        }
    }
}

proof fn lemma_captured_series(steps: Seq<StreamStep>, len: nat)
    requires
        streamed(steps, len),
        steps.len() > 0,
        steps[0].before.capture_buffer.len() > 0,
    ensures
        ({
            let first = steps[0].before;
            let after = steps.last().after;
            let samples = samples_captured(steps);
            &&& after.capture_write_pos == first.capture_write_pos + samples.len()
            &&& after.capture_buffer@ == ring_after(
                first.capture_buffer@,
                first.capture_write_pos as nat,
                samples,
            )
        }),
    decreases steps.len(),
{
    let n = steps.len() as int;
    let last = steps[n - 1];
    let front = steps.drop_last();
    let first = steps[0].before;
    let ring = first.capture_buffer@;
    let written = first.capture_write_pos as nat;
    let before = samples_captured(front);
    assert(last.taken(len));
    if n > 1 {
        lemma_streamed_front(steps, len);
        assert(front[0] == steps[0]);
        lemma_captured_series(front, len);
        assert(front.last() == steps[n - 2]);
        assert(same_streams(steps[n - 2].after, last.before));
    }
    assert(last.before.capture_buffer@ == ring_after(ring, written, before));
    if let StreamEvent::Output { frames, playback, callback } = last.event {
        lemma_frames_keep(last.before, len, playback, callback, frames);
    }
    law_captures_join(ring, written, before, last.samples());
}

/// What the callbacks played in all.
pub open spec fn samples_played(steps: Seq<StreamStep>, probe: Seq<Float32>) -> Seq<Float32>
    decreases steps.len(),
{
    if steps.len() == 0 {
        Seq::empty()
    } else {
        samples_played(steps.drop_last(), probe) + voice_samples(
            steps.last().before.voice(),
            probe,
            steps.last().frames(),
        )
    }
}

proof fn lemma_played_series(steps: Seq<StreamStep>, probe: Seq<Float32>)
    requires
        streamed(steps, probe.len()),
        steps.len() > 0,
        probe.len() <= usize::MAX,
    ensures
        steps.last().after.voice() == voice_after_frames(
            steps[0].before.voice(),
            probe.len(),
            frames_played(steps),
        ),
        samples_played(steps, probe) == voice_samples(
            steps[0].before.voice(),
            probe,
            frames_played(steps),
        ),
    decreases steps.len(),
{
    let n = steps.len() as int;
    let len = probe.len();
    let last = steps[n - 1];
    let front = steps.drop_last();
    let v = steps[0].before.voice();
    let (first, second) = (frames_played(front), last.frames());
    assert(last.taken(len));
    if n > 1 {
        lemma_streamed_front(steps, len);
        assert(front[0] == steps[0]);
        lemma_played_series(front, probe);
        assert(front.last() == steps[n - 2]);
        assert(same_streams(steps[n - 2].after, last.before));
    } else {
        assert(samples_played(front, probe) =~= voice_samples(v, probe, 0));
    }
    if let StreamEvent::Output { frames, playback, callback } = last.event {
        lemma_state_voice(last.before, len, playback, callback, frames);
    }
    lemma_voice_joins(v, len, first, second);
    let played = samples_played(steps, probe);
    let expected = voice_samples(v, probe, first + second);
    assert forall|f: int| 0 <= f < first + second implies played[f] == expected[f] by {
        if f >= first {
            lemma_voice_joins(v, len, first, (f - first) as nat);
        }
    }
    assert(played =~= expected);
}

/// A requested probe is played once, whole, and then silence, however many callbacks that takes
/// and whatever is captured in between.
pub proof fn law_callbacks_play_the_probe(steps: Seq<StreamStep>, probe: Seq<Float32>)
    requires
        streamed(steps, probe.len()),
        starts_with_request(steps),
        probe.len() <= usize::MAX,
        frames_played(steps) >= probe.len(),
    ensures
        samples_played(steps, probe) == probe + Seq::new(
            (frames_played(steps) - probe.len()) as nat,
            |i: int| Float32 { bits: 0 },
        ),
{
    lemma_played_series(steps, probe);
    law_probe_played_whole(steps[0].before.voice(), probe, frames_played(steps));
}

/// A requested probe that is played to its end leaves the state listening, however many callbacks
/// that takes and whatever is captured in between. The state has noted how much was captured when
/// the first of them started the probe, and when and where in its buffer that was. It listens from
/// the callback on that plays the first frame behind the probe.
pub proof fn law_playing_ends_in_listening(steps: Seq<StreamStep>, len: nat)
    requires
        streamed(steps, len),
        starts_with_request(steps),
        len <= usize::MAX,
        frames_played(steps) > probe_frames(len),
    ensures
        ({
            let after = steps.last().after;
            &&& after.phase == MeasurementPhase::Listening
            &&& !after.probe_play_requested
            &&& !after.probe_playing
            &&& noted_start(steps, after)
            &&& exists|k: int| #[trigger]
                probe_ends_at(steps, len, k) && after.phase_start_sample
                    == steps[k].before.capture_sample_counter
        }),
{
    lemma_probe_series(steps, len);
    lemma_requested_voice(steps[0].before.voice(), len, frames_played(steps));
}

/// Once a callback has started the probe, what is captured from then on is what the snapshot
/// holds, as long as it fits into the ring, however many callbacks play and record in the meantime.
pub proof fn law_snapshot_starts_with_the_probe(steps: Seq<StreamStep>, len: nat)
    requires
        streamed(steps, len),
        starts_with_request(steps),
        len <= usize::MAX,
        0 < samples_captured(steps).len() <= steps[0].before.capture_buffer.len(),
    ensures
        noted_start(steps, steps.last().after),
        ring_snapshot(
            steps.last().after.capture_buffer@,
            steps.last().after.emission_write_pos as nat,
            steps.last().after.capture_write_pos as nat,
        ) == samples_captured(steps),
{
    let first = steps[0].before;
    lemma_probe_series(steps, len);
    lemma_captured_series(steps, len);
    law_snapshot_after_emission(
        first.capture_buffer@,
        first.capture_write_pos as nat,
        samples_captured(steps),
    );
}

proof fn lemma_start_keeps_phase(
    st: SharedState,
    len: nat,
    playback: StreamInstant,
    callback: StreamInstant,
    frames: nat,
)
    requires
        st.probe_play_requested,
        !st.probe_playing,
        len <= usize::MAX,
        frames <= probe_frames(len),
    ensures
        st.after_frames(len, playback, callback, frames).phase == st.phase,
        st.after_frames(len, playback, callback, frames).phase_start_sample
            == st.phase_start_sample,
    decreases frames,
{
    if frames > 0 {
        lemma_start_keeps_phase(st, len, playback, callback, (frames - 1) as nat);
        lemma_state_voice(st, len, playback, callback, (frames - 1) as nat);
        if frames > 1 {
            lemma_requested_voice(st.voice(), len, (frames - 1) as nat);
        }
    }
}

proof fn lemma_series_keeps_phase(steps: Seq<StreamStep>, len: nat)
    requires
        streamed(steps, len),
        starts_with_request(steps),
        len <= usize::MAX,
        frames_played(steps) <= probe_frames(len),
    ensures
        steps.last().after.phase == steps[0].before.phase,
        steps.last().after.phase_start_sample == steps[0].before.phase_start_sample,
    decreases steps.len(),
{
    let n = steps.len() as int;
    let last = steps[n - 1];
    let front = steps.drop_last();
    let v = steps[0].before.voice();
    let (played, total) = (frames_played(front), frames_played(steps));
    assert(last.taken(len));
    if n == 1 {
        assert(total == last.frames());
        if let StreamEvent::Output { frames, playback, callback } = last.event {
            lemma_start_keeps_phase(last.before, len, playback, callback, frames);
        }
    } else {
        lemma_streamed_front(steps, len);
        assert(front[0] == steps[0]);
        lemma_series_keeps_phase(front, len);
        lemma_probe_series(front, len);
        assert(front.last() == steps[n - 2]);
        assert(same_streams(steps[n - 2].after, last.before));
        lemma_requested_voice(v, len, played);
        lemma_requested_voice(v, len, total);
        if let StreamEvent::Output { frames, playback, callback } = last.event {
            lemma_under_way(last.before, len, playback, callback, frames);
            lemma_voice_joins(v, len, played, frames);
        }
    }
}

/// A requested probe leaves the phase and the start of the listening as they were until its last
/// sample is played, over however many callbacks. The first frame behind it begins the listening;
/// until then the probe is playing and no longer requested.
pub proof fn law_phase_waits_for_the_end_of_the_probe(steps: Seq<StreamStep>, len: nat)
    requires
        streamed(steps, len),
        starts_with_request(steps),
        len <= usize::MAX,
    ensures
        ({
            let first = steps[0].before;
            let after = steps.last().after;
            let over = frames_played(steps) > len && frames_played(steps) > 1;
            &&& !over ==> {
                &&& after.phase == first.phase
                &&& after.phase_start_sample == first.phase_start_sample
                &&& after.probe_playing
                &&& !after.probe_play_requested
            }
            &&& over ==> {
                &&& after.phase == MeasurementPhase::Listening
                &&& !after.probe_playing
                &&& !after.probe_play_requested
            }
        }),
{
    lemma_probe_series(steps, len);
    lemma_requested_voice(steps[0].before.voice(), len, frames_played(steps));
    if frames_played(steps) <= probe_frames(len) {
        lemma_series_keeps_phase(steps, len);
    } else {
        law_playing_ends_in_listening(steps, len);
    }
}

/// Playing frames changes what concerns the probe and the phase, and nothing else.
pub proof fn law_playing_leaves_the_rest_alone(
    st: SharedState,
    len: nat,
    playback: StreamInstant,
    callback: StreamInstant,
    frames: nat,
)
    ensures
        ({
            let after = st.after_frames(len, playback, callback, frames);
            &&& after.mode == st.mode
            &&& after.output_device_idx == st.output_device_idx
            &&& after.input_device_idx == st.input_device_idx
            &&& after.capture_buffer == st.capture_buffer
            &&& after.capture_write_pos == st.capture_write_pos
            &&& after.capture_sample_counter == st.capture_sample_counter
            &&& after.last_ncc_peak == st.last_ncc_peak
            &&& after.last_latency_ms == st.last_latency_ms
            &&& after.last_output_delay_ms == st.last_output_delay_ms
            &&& after.last_lag_ms == st.last_lag_ms
            &&& after.calibration_measurements == st.calibration_measurements
            &&& after.calibration_count == st.calibration_count
            &&& after.system_offset_ms == st.system_offset_ms
            &&& after.measurements == st.measurements
            &&& after.measurement_count == st.measurement_count
            &&& after.miss_count == st.miss_count
            &&& after.listen_timeout_samples == st.listen_timeout_samples
            &&& after.inter_probe_gap_samples == st.inter_probe_gap_samples
            &&& after.output_sample_rate == st.output_sample_rate
            &&& after.input_sample_rate == st.input_sample_rate
            &&& after.error_message == st.error_message
            &&& after.streams_active == st.streams_active
        }),
    decreases frames,
{
    if frames > 0 {
        law_playing_leaves_the_rest_alone(st, len, playback, callback, (frames - 1) as nat);
    }
}

/// Recording counts every sample once, keeps the size of the ring, and changes nothing but the
/// capture.
pub proof fn law_recording_counts_every_sample(
    before: SharedState,
    samples: Seq<Float32>,
    after: SharedState,
)
    requires
        captured(before, samples, after),
        before.capture_buffer.len() > 0,
    ensures
        after.capture_write_pos - before.capture_write_pos == samples.len(),
        after.capture_sample_counter - before.capture_sample_counter == samples.len(),
        after.capture_buffer.len() == before.capture_buffer.len(),
        after == (SharedState {
            capture_buffer: after.capture_buffer,
            capture_write_pos: after.capture_write_pos,
            capture_sample_counter: after.capture_sample_counter,
            ..before
        }),
{
    law_captures_join(
        before.capture_buffer@,
        before.capture_write_pos as nat,
        samples,
        Seq::empty(),
    );
}

/// A place of the ring that no new sample belongs to keeps what it held, and the last sample that
/// belongs to a place is what it holds: sample `i` goes to the place of its number.
pub proof fn law_each_sample_has_its_place(
    ring: Seq<Float32>,
    written: nat,
    samples: Seq<Float32>,
    place: int,
)
    requires
        0 <= place < ring.len(),
    ensures
        ring_after(ring, written, samples).len() == ring.len(),
        (forall|i: int|
            0 <= i < samples.len() ==> #[trigger] (written + i) % ring.len() as int != place)
            ==> ring_after(ring, written, samples)[place] == ring[place],
        forall|i: int|
            0 <= i < samples.len() && samples.len() - ring.len() <= i ==> #[trigger] samples[i]
                == ring_after(ring, written, samples)[(written + i) % ring.len() as int],
    decreases samples.len(),
{
    let n = ring.len() as int;
    if samples.len() > 0 {
        let m = samples.len() as int;
        let front = samples.drop_last();
        let at = (written + (m - 1)) % n;
        law_each_sample_has_its_place(ring, written, front, place);
        let before = ring_after(ring, written, front);
        let after = ring_after(ring, written, samples);
        assert(after == before.update(at, samples.last()));
        assert(0 <= at < n);
        if forall|i: int| 0 <= i < m ==> #[trigger] (written + i) % n != place {
            assert(at != place);
        }
        assert forall|i: int| 0 <= i < m && m - n <= i implies #[trigger] samples[i] == after[(
        written + i) % n] by {
            let slot = (written + i) % n;
            assert(0 <= slot < n);
            if i < m - 1 {
                assert(samples[i] == front[i]);
                let (x, y) = (written + i, written + (m - 1));
                assert(x % n != y % n) by (nonlinear_arith)
                    requires
                        n > 0,
                        y - n < x < y,
                ;
            }
        }
    }
}

/// Every channel of a frame plays the sample of that frame.
pub proof fn law_every_channel_plays_the_sample(
    samples: Seq<Float32>,
    channels: nat,
    frame: int,
    channel: int,
)
    requires
        0 <= frame < samples.len(),
        0 <= channel < channels,
    ensures
        interleaved(samples, channels).len() == samples.len() * channels,
        0 <= frame * channels + channel < samples.len() * channels,
        interleaved(samples, channels)[frame * channels + channel] == samples[frame],
{
    let (n, c) = (samples.len() as int, channels as int);
    let at = frame * c + channel;
    assert(0 <= at < n * c && at / c == frame) by (nonlinear_arith)
        requires
            0 <= frame < n,
            0 <= channel < c,
            at == frame * c + channel,
    ;
}

/// Where more was captured since the probe started than the ring holds, the snapshot still goes
/// round from the place of the probe's start to what was captured last, once at most. Where the
/// probe started behind what was captured, it is what lies between the two places, if the first
/// comes first.
pub proof fn law_snapshot_of_any_ring(ring: Seq<Float32>, emission: nat, written: nat)
    requires
        ring.len() > 0,
    ensures
        ({
            let n = ring.len() as int;
            let (from, to) = (emission as int % n, written as int % n);
            let r = ring_snapshot(ring, emission, written);
            &&& written > emission ==> r.len() == (written - emission - 1) % n + 1
            &&& written <= emission ==> r.len() == (if to > from {
                to - from
            } else {
                0
            })
            &&& forall|i: int| 0 <= i < r.len() ==> #[trigger] r[i] == ring[(emission + i) % n]
        }),
{
    let n = ring.len() as int;
    let (from, to) = (emission as int % n, written as int % n);
    let r = ring_snapshot(ring, emission, written);
    if written > emission {
        let gap = written - emission - 1;
        let d = gap % n + 1;
        let q = gap / n;
        assert(gap == n * q + gap % n && 0 <= gap % n < n) by (nonlinear_arith)
            requires
                n > 0,
                q == gap / n,
        ;
        vstd::arithmetic::div_mod::lemma_mod_multiples_vanish(q, emission + d, n);
        assert(n * q + (emission + d) == written);
        let near = (emission + d) as nat;
        assert(near as int % n == to);
        assert(r == ring_snapshot(ring, emission, near));
        law_snapshot_goes_round(ring, emission, near);
    } else if to > from {
        assert forall|i: int| 0 <= i < r.len() implies #[trigger] r[i] == ring[(emission + i)
            % n] by {
            let q = emission as int / n;
            assert((emission + i) % n == from + i) by (nonlinear_arith)
                requires
                    n > 0,
                    q == emission as int / n,
                    from == emission as int % n,
                    0 <= from + i < n,
                    i >= 0,
            {
                assert(emission as int == q * n + from);
                assert(emission + i == q * n + (from + i));
            }
        }
    }
}

proof fn lemma_playing_voice(v: Voice, len: nat, frames: nat)
    requires
        v.playing,
        v.next + frames <= len,
    ensures
        voice_after_frames(v, len, frames) == (Voice { next: v.next + frames, ..v }),
    decreases frames,
{
    if frames > 0 {
        lemma_playing_voice(v, len, (frames - 1) as nat);
    }
}

/// A probe that is requested while one is playing starts once that one is over: the rest is
/// played, then a silent frame, then the probe from its first sample on.
pub proof fn law_request_while_playing_comes_next(v: Voice, probe: Seq<Float32>, frames: nat)
    requires
        v.playing,
        v.requested,
        v.next <= probe.len(),
        frames >= probe.len() - v.next + 1 + probe.len(),
    ensures
        voice_samples(v, probe, frames).take(probe.len() - v.next + 1 + probe.len())
            == probe.skip(v.next as int).push(Float32 { bits: 0 }) + probe,
{
    let len = probe.len();
    let rest = (len - v.next) as nat;
    let played = voice_samples(v, probe, frames).take((rest + 1 + len) as int);
    let expected = probe.skip(v.next as int).push(Float32 { bits: 0 }) + probe;
    lemma_playing_voice(v, len, rest);
    let over = voice_after_frames(v, len, (rest + 1) as nat);
    assert(over == voice_after(voice_after_frames(v, len, rest), len));
    assert(over.requested && !over.playing);
    law_probe_played_whole(over, probe, len);
    assert forall|f: int| 0 <= f < rest + 1 + len implies played[f] == expected[f] by {
        if f <= rest {
            lemma_playing_voice(v, len, f as nat);
        } else {
            let g = (f - rest - 1) as nat;
            lemma_voice_joins(v, len, (rest + 1) as nat, g);
            assert(voice_samples(over, probe, len)[g as int] == probe[g as int]);
        }
    }
    assert(played =~= expected);
}

/// The frame at which such a probe starts is noted as its place in the buffer, with what was
/// captured until then and the times of the callback.
pub proof fn law_start_within_a_buffer_is_noted(
    st: SharedState,
    len: nat,
    playback: StreamInstant,
    callback: StreamInstant,
)
    requires
        st.probe_playing,
        st.probe_play_requested,
        st.probe_play_sample_idx <= len,
        len < u32::MAX,
        len <= usize::MAX,
    ensures
        ({
            let rest = (len - st.probe_play_sample_idx) as nat;
            let after = st.after_frames(len, playback, callback, (rest + 2) as nat);
            &&& after.playback_frame_offset == rest + 1
            &&& after.emission_write_pos == st.capture_write_pos
            &&& after.playback_instant == Some(playback)
            &&& after.output_callback_instant == Some(callback)
            &&& after.phase == MeasurementPhase::Listening
            &&& after.phase_start_sample == st.capture_sample_counter
            &&& after.probe_playing
            &&& !after.probe_play_requested
        }),
{
    let rest = (len - st.probe_play_sample_idx) as nat;
    let over = st.after_frames(len, playback, callback, (rest + 1) as nat);
    let last = st.after_frames(len, playback, callback, rest);
    lemma_playing_voice(st.voice(), len, rest);
    lemma_state_voice(st, len, playback, callback, rest);
    lemma_frames_keep(st, len, playback, callback, rest);
    assert(over == last.after_frame(len, playback, callback, rest));
    assert(over.starts_probe(len));
    assert(st.after_frames(len, playback, callback, (rest + 2) as nat) == over.after_frame(
        len,
        playback,
        callback,
        (rest + 1) as nat,
    ));
}

/// A probe that plays from its first sample notes its start at the frame that plays it; one that is
/// further on, or that is neither played nor requested, notes nothing, however many frames follow.
pub proof fn law_only_the_first_sample_is_noted(
    st: SharedState,
    len: nat,
    playback: StreamInstant,
    callback: StreamInstant,
    frames: nat,
)
    requires
        len <= usize::MAX,
        frames > 0,
        !st.probe_play_requested,
    ensures
        ({
            let after = st.after_frames(len, playback, callback, frames);
            if st.probe_playing && st.probe_play_sample_idx == 0 && len > 0 {
                &&& after.emission_write_pos == st.capture_write_pos
                &&& after.playback_instant == Some(playback)
                &&& after.output_callback_instant == Some(callback)
                &&& after.playback_frame_offset == 0
            } else {
                &&& after.emission_write_pos == st.emission_write_pos
                &&& after.playback_instant == st.playback_instant
                &&& after.output_callback_instant == st.output_callback_instant
                &&& after.playback_frame_offset == st.playback_frame_offset
            }
        }),
    decreases frames,
{
    let before = st.after_frames(len, playback, callback, (frames - 1) as nat);
    if under_way(st.voice(), len) {
        lemma_under_way(st, len, playback, callback, frames);
    } else {
        lemma_playing_voice(st.voice(), len, 1);
        lemma_state_voice(st, len, playback, callback, (frames - 1) as nat);
        if frames > 1 {
            law_only_the_first_sample_is_noted(
                st,
                len,
                playback,
                callback,
                (frames - 1) as nat,
            );
            lemma_voice_joins(st.voice(), len, 1, (frames - 2) as nat);
            lemma_stays_under_way(
                voice_after_frames(st.voice(), len, 1),
                len,
                (frames - 2) as nat,
            );
            assert(!before.starts_probe(len));
        } else {
            assert(before == st);
        }
    }
}

proof fn lemma_stays_under_way(v: Voice, len: nat, frames: nat)
    requires
        under_way(v, len),
    ensures
        under_way(voice_after_frames(v, len, frames), len),
    decreases frames,
{
    if frames > 0 {
        lemma_stays_under_way(v, len, (frames - 1) as nat);
    }
}

} // verus!
