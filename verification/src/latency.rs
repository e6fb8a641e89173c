//! Hardware timestamps of an output stream.

use vstd::prelude::*;

verus! {

/// A moment on the clock of an output stream, in nanoseconds from some fixed origin.
#[derive(Clone, Copy, Debug, PartialEq, Eq, Structural)]
pub struct StreamInstant {
    /// Nanoseconds from the origin, negative before it.
    pub nanos: i128,
}

impl StreamInstant {
    /// The nanoseconds from `earlier` to this moment, unless this moment is the earlier one or
    /// the two are too far apart to count.
    pub fn duration_since(self, earlier: StreamInstant) -> (r: Option<u64>)
        ensures
            r == (if 0 <= self.nanos - earlier.nanos <= u64::MAX {
                Some((self.nanos - earlier.nanos) as u64)
            } else {
                None
            }),
    {
        match self.nanos.checked_sub(earlier.nanos) {
            None => None,
            Some(difference) => {
                if difference < 0 || difference > u64::MAX as i128 {
                    None
                } else {
                    Some(difference as u64)
                }
            },
        }
    }
}

/// Why no output delay can be told.
#[derive(Clone, Copy, Debug, PartialEq, Eq, Structural)]
pub enum TimestampError {
    /// No probe was played yet.
    NoPlaybackInstant,
    /// No callback that played a probe was seen yet.
    NoCallbackInstant,
    /// The playback time does not follow the callback's.
    PlaybackBeforeCallback,
}

/// The delay between two instants, or why there is none.
pub open spec fn delay_between(
    playback_instant: Option<StreamInstant>,
    output_callback_instant: Option<StreamInstant>,
) -> Result<u64, TimestampError> {
    match (playback_instant, output_callback_instant) {
        (None, _) => Err(TimestampError::NoPlaybackInstant),
        (Some(_), None) => Err(TimestampError::NoCallbackInstant),
        (Some(playback), Some(callback)) => if 0 <= playback.nanos - callback.nanos <= u64::MAX {
            Ok((playback.nanos - callback.nanos) as u64)
        } else {
            Err(TimestampError::PlaybackBeforeCallback)
        },
    }
}

/// The callback and the delay add up to the playback. Only the distance of the two instants
/// counts, not the origin of the clock.
pub proof fn law_callback_and_delay_make_the_playback(
    playback: StreamInstant,
    callback: StreamInstant,
    shift: int,
)
    requires
        i128::MIN <= playback.nanos + shift <= i128::MAX,
        i128::MIN <= callback.nanos + shift <= i128::MAX,
    ensures
        delay_between(Some(playback), Some(callback)) matches Ok(delay) ==> callback.nanos + delay
            == playback.nanos,
        delay_between(Some(playback), Some(callback)) is Ok <==> callback.nanos <= playback.nanos
            <= callback.nanos + u64::MAX,
        delay_between(Some(playback), Some(callback)) == delay_between(
            Some(StreamInstant { nanos: (playback.nanos + shift) as i128 }),
            Some(StreamInstant { nanos: (callback.nanos + shift) as i128 }),
        ),
{
}

/// The nanoseconds between an output callback and the moment its first frame reaches the
/// converter.
pub fn output_buffer_delay(
    playback_instant: Option<StreamInstant>,
    output_callback_instant: Option<StreamInstant>,
) -> (r: Result<u64, TimestampError>)
    ensures
        r == delay_between(playback_instant, output_callback_instant),
        r == (match (playback_instant, output_callback_instant) {
            (None, _) => Err(TimestampError::NoPlaybackInstant),
            (Some(_), None) => Err(TimestampError::NoCallbackInstant),
            (Some(playback), Some(callback)) => if 0 <= playback.nanos - callback.nanos
                <= u64::MAX {
                Ok((playback.nanos - callback.nanos) as u64)
            } else {
                Err(TimestampError::PlaybackBeforeCallback)
            },
        }),
{
    match playback_instant {
        None => Err(TimestampError::NoPlaybackInstant),
        Some(playback) => match output_callback_instant {
            None => Err(TimestampError::NoCallbackInstant),
            Some(callback) => match playback.duration_since(callback) {
                None => Err(TimestampError::PlaybackBeforeCallback),
                Some(delay) => Ok(delay),
            },
        },
    }
}

} // verus!
