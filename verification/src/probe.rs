//! The probe signal: its recording, and its versions at the sample rates in use.

use std::collections::HashMap;

use vstd::arithmetic::power2::pow2;
use vstd::prelude::*;

use crate::float_bits::Float32;

verus! {

broadcast use vstd::std_specs::hash::group_hash_axioms;

/// `hound::Error`, why a recording could not be read.
#[verifier::external_type_specification]
#[verifier::external_body]
pub struct ExHoundError(hound::Error);

/// What `hound` reads from the head of a WAV recording: the number of channels, the sample rate,
/// the bits per sample, and whether the samples are floating-point ones. Nothing where it finds
/// no valid head.
pub uninterp spec fn wav_header(bytes: Seq<u8>) -> Option<(u16, u32, u16, bool)>;

/// The integer samples that `hound` decodes from a WAV recording, channel by channel within each
/// frame. Nothing where the recording is not valid or its samples are not integers of a width
/// that `hound` knows.
pub uninterp spec fn wav_samples(bytes: Seq<u8>) -> Option<Seq<i32>>;

/// The number of values on one side of zero of a sample of `bits` bits.
pub open spec fn full_scale(bits: int) -> int {
    pow2((bits - 1) as nat) as int
}

/// One bit more doubles the full scale, and of one bit it is one.
pub proof fn law_full_scale_doubles(bits: int)
    requires
        bits >= 1,
    ensures
        full_scale(1) == 1,
        full_scale(bits + 1) == 2 * full_scale(bits),
{
    vstd::arithmetic::power2::lemma2_to64();
    vstd::arithmetic::power2::lemma_pow2_unfold(bits as nat);
}

/// Reads the head of a recording with `hound::WavReader::new` and `spec`.
///
/// A head that is read names a channel at least and a bit per sample at least.
#[verifier::external_body]
fn read_wav_header(bytes: &[u8]) -> (r: Result<(u16, u32, u16, bool), hound::Error>)
    ensures
        r is Ok <==> wav_header(bytes@) is Some,
        r matches Ok(header) ==> {
            &&& wav_header(bytes@) == Some(header)
            &&& header.0 >= 1
            &&& header.2 >= 1
        },
{
    let reader = hound::WavReader::new(bytes)?;
    let spec = reader.spec();
    let float = match spec.sample_format {
        hound::SampleFormat::Float => true,
        hound::SampleFormat::Int => false,
    };
    Ok((spec.channels, spec.sample_rate, spec.bits_per_sample, float))
}

/// Decodes the samples of a recording with `hound::WavReader::samples`.
///
/// Decoding succeeds only behind a valid head, and yields whole frames. Where it yields samples,
/// they are integers of one, two, three or four bytes, and each fits into the bits per sample.
#[verifier::external_body]
fn read_wav_samples(bytes: &[u8]) -> (r: Result<Vec<i32>, hound::Error>)
    ensures
        r is Ok <==> wav_samples(bytes@) is Some,
        r matches Ok(samples) ==> {
            &&& wav_samples(bytes@) == Some(samples@)
            &&& wav_header(bytes@) matches Some(header) && {
                &&& samples@.len() as int % header.0 as int == 0
                &&& samples.len() > 0 ==> !header.3 && (header.2 == 8 || header.2 == 16 || header.2
                    == 24 || header.2 == 32)
                &&& forall|i: int|
                    0 <= i < samples.len() ==> -full_scale(header.2 as int)
                        <= #[trigger] samples[i] < full_scale(header.2 as int)
            }
        },
{
    let mut reader = hound::WavReader::new(bytes)?;
    reader.samples::<i32>().collect()
}

/// A recording that was read.
pub struct Recording {
    /// Samples per second and channel.
    pub sample_rate: u32,
    /// Samples per frame.
    pub channels: u16,
    /// What the samples are.
    pub samples: RecordedSamples,
}

/// The samples of a recording.
pub enum RecordedSamples {
    /// Integers, to be divided by `full_scale`.
    Int {
        /// The samples, channel by channel within each frame.
        samples: Vec<i32>,
        /// What stands for one.
        full_scale: u32,
    },
    /// Floating-point numbers, yet to be read.
    Float,
}

/// Why a recording cannot be used.
#[derive(Clone, Copy, Debug, PartialEq, Eq, Structural)]
pub enum RecordingError {
    /// It is not a WAV recording.
    Unreadable,
    /// Its samples cannot be decoded.
    Undecodable,
}

/// What a head and decoded samples make of a recording.
pub open spec fn is_recording(
    header: Option<(u16, u32, u16, bool)>,
    samples: Option<Seq<i32>>,
    r: Result<Recording, RecordingError>,
) -> bool {
    match header {
        None => r == Err::<Recording, _>(RecordingError::Unreadable),
        Some((channels, sample_rate, bits, float)) => if float {
            r matches Ok(recording) && {
                &&& recording.sample_rate == sample_rate
                &&& recording.channels == channels
                &&& recording.samples is Float
            }
        } else if bits < 1 || bits > 32 || samples is None {
            r == Err::<Recording, _>(RecordingError::Undecodable)
        } else {
            r matches Ok(recording) && {
                &&& recording.sample_rate == sample_rate
                &&& recording.channels == channels
                &&& recording.samples matches RecordedSamples::Int { samples: s, full_scale: one }
                    && s@ == samples->0 && one == full_scale(bits as int)
            }
        },
    }
}

/// A recording has the rate and the channels of its head. Its integer samples are those decoded,
/// scaled by the bits per sample; floating-point ones are never decoded. It is refused as
/// unreadable exactly where it has no head, and as undecodable where it should have integer samples
/// and has none, or more than 32 bits each.
pub proof fn law_recording_is_what_was_read(
    header: Option<(u16, u32, u16, bool)>,
    samples: Option<Seq<i32>>,
    r: Result<Recording, RecordingError>,
)
    requires
        is_recording(header, samples, r),
        header matches Some(h) ==> h.2 >= 1,
    ensures
        header is None <==> r == Err::<Recording, _>(RecordingError::Unreadable),
        r == Err::<Recording, _>(RecordingError::Undecodable) <==> (header matches Some(h)
            && !h.3 && (samples is None || h.2 > 32)),
        r matches Ok(recording) ==> {
            &&& header matches Some(h) && recording.channels == h.0 && recording.sample_rate == h.1
                && (recording.samples is Float <==> h.3)
            &&& recording.samples matches RecordedSamples::Int { samples: s, full_scale: one } ==> {
                &&& samples == Some(s@)
                &&& header matches Some(h) && one == pow2((h.2 - 1) as nat)
            }
        },
{
}

/// Makes a recording of a head and decoded samples, or of the lack of either.
pub fn interpret_recording(
    header: Option<(u16, u32, u16, bool)>,
    samples: Option<Vec<i32>>,
) -> (r: Result<Recording, RecordingError>)
    ensures
        is_recording(
            header,
            match samples {
                Some(s) => Some(s@),
                None => None,
            },
            r,
        ),
{
    match header {
        None => Err(RecordingError::Unreadable),
        Some((channels, sample_rate, bits, float)) => {
            if float {
                return Ok(Recording { sample_rate, channels, samples: RecordedSamples::Float });
            }
            if bits < 1 || bits > 32 {
                return Err(RecordingError::Undecodable);
            }
            match samples {
                None => Err(RecordingError::Undecodable),
                Some(samples) => {
                    let shift: u32 = (bits - 1) as u32;
                    proof {
                        vstd::bits::lemma_u32_pow2_no_overflow(shift as nat);
                        vstd::bits::lemma_u32_shl_is_mul(1, shift);
                    }
                    let one: u32 = 1u32 << shift;
                    Ok(
                        Recording {
                            sample_rate,
                            channels,
                            samples: RecordedSamples::Int { samples, full_scale: one },
                        },
                    )
                },
            }
        },
    }
}

/// Reads a WAV recording.
///
/// A recording that is read has a channel at least; its integer samples form whole frames and lie
/// between minus one and one when divided by their full scale.
pub fn read_recording(bytes: &[u8]) -> (r: Result<Recording, RecordingError>)
    ensures
        is_recording(wav_header(bytes@), wav_samples(bytes@), r),
        r matches Ok(recording) ==> {
            &&& recording.channels >= 1
            &&& recording.samples matches RecordedSamples::Int { samples, full_scale: one } ==> {
                &&& samples@.len() as int % recording.channels as int == 0
                &&& forall|i: int| 0 <= i < samples.len() ==> -one <= #[trigger] samples[i] < one
            }
        },
{
    let header = match read_wav_header(bytes) {
        Ok(header) => Some(header),
        Err(_) => None,
    };
    let float: bool = match header {
        Some((_, _, _, float)) => float,
        None => false,
    };
    let samples = if float {
        None
    } else {
        match read_wav_samples(bytes) {
            Ok(samples) => Some(samples),
            Err(_) => None,
        }
    };
    interpret_recording(header, samples)
}

/// The probe at one sample rate.
pub struct CachedProbe {
    /// The probe behind the band-pass filter.
    pub filtered: Vec<Float32>,
    /// The envelope of that.
    pub envelope: Vec<Float32>,
}

/// The probe.
pub struct Probe {
    /// Its samples.
    pub samples: Vec<Float32>,
    /// Samples per second.
    pub sample_rate: u32,
    /// Its versions at other sample rates, as far as they are known.
    pub cache: HashMap<u32, CachedProbe>,
}

impl Probe {
    /// A probe of which no version is known yet.
    pub fn new(samples: Vec<Float32>, sample_rate: u32) -> (r: Probe)
        ensures
            r.samples == samples,
            r.sample_rate == sample_rate,
            r.cache@ == Map::<u32, CachedProbe>::empty(),
    {
        Probe { samples, sample_rate, cache: HashMap::new() }
    }

    /// The samples, if they need no resampling to be used at `target_rate`.
    pub fn at_own_rate(&self, target_rate: u32) -> (r: Option<Vec<Float32>>)
        ensures
            r is Some <==> self.sample_rate == target_rate,
            r matches Some(samples) ==> samples@ == self.samples@,
    {
        if self.sample_rate == target_rate {
            Some(copied(&self.samples))
        } else {
            None
        }
    }

    /// Whether the versions at `sample_rate` are known.
    pub fn is_cached(&self, sample_rate: u32) -> (r: bool)
        ensures
            r == self.cache@.contains_key(sample_rate),
    {
        self.cache.contains_key(&sample_rate)
    }

    /// Keeps the versions at `sample_rate`, unless they are known already.
    pub fn remember(&mut self, sample_rate: u32, filtered: Vec<Float32>, envelope: Vec<Float32>)
        ensures
            final(self).cache@ == (if old(self).cache@.contains_key(sample_rate) {
                old(self).cache@
            } else {
                old(self).cache@.insert(sample_rate, CachedProbe { filtered, envelope })
            }),
            final(self).samples == old(self).samples,
            final(self).sample_rate == old(self).sample_rate,
    {
        if !self.cache.contains_key(&sample_rate) {
            self.cache.insert(sample_rate, CachedProbe { filtered, envelope });
        }
    }

    /// The envelope at `sample_rate`, if it is known.
    pub fn envelope(&self, sample_rate: u32) -> (r: Option<Vec<Float32>>)
        ensures
            r is Some <==> self.cache@.contains_key(sample_rate),
            r matches Some(envelope) ==> envelope@ == self.cache@[sample_rate].envelope@,
    {
        match self.cache.get(&sample_rate) {
            Some(cached) => Some(copied(&cached.envelope)),
            None => None,
        }
    }

    /// The filtered probe at `sample_rate`, if it is known.
    pub fn filtered(&self, sample_rate: u32) -> (r: Option<Vec<Float32>>)
        ensures
            r is Some <==> self.cache@.contains_key(sample_rate),
            r matches Some(filtered) ==> filtered@ == self.cache@[sample_rate].filtered@,
    {
        match self.cache.get(&sample_rate) {
            Some(cached) => Some(copied(&cached.filtered)),
            None => None,
        }
    }
}

fn copied(samples: &Vec<Float32>) -> (r: Vec<Float32>)
    ensures
        r@ == samples@,
{
    let mut r: Vec<Float32> = Vec::new();
    let mut i: usize = 0;
    while i < samples.len()
        invariant
            i <= samples.len(),
            r@ == samples@.take(i as int),
        decreases samples.len() - i,
    {
        r.push(samples[i]);
        i += 1;
        proof {
            assert(r@ =~= samples@.take(i as int));
        }
    }
    proof {
        assert(samples@.take(samples.len() as int) =~= samples@);
    }
    r
}

} // verus!
