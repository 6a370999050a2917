//! Playback clock: frame stepping with wrap-around at the end of the scene.

use vstd::prelude::*;

verus! {

/// A frame rate `fps_num / fps_den`; both terms are at least 1.
#[derive(Debug, Clone, Copy)]
pub struct PlaybackClock {
    pub fps_num: u32,
    pub fps_den: u32,
}

/// Playback length taken as at least one frame.
pub open spec fn loop_length(duration: int) -> int {
    if duration >= 1 { duration } else { 1 }
}

/// The frame after `current`, wrapping to 0 at the loop length.
pub open spec fn next_frame_spec(current: int, duration: int) -> int {
    if current + 1 >= loop_length(duration) { 0 } else { current + 1 }
}

/// The frame reached after `steps` steps from `start`.
pub open spec fn advance(start: int, duration: int, steps: nat) -> int
    decreases steps,
{
    if steps == 0 {
        start
    } else {
        next_frame_spec(advance(start, duration, (steps - 1) as nat), duration)
    }
}

/// Stepping from a frame of the scene stays within the scene.
pub proof fn lemma_next_frame_in_range(current: int, duration: int)
    requires
        0 <= current < loop_length(duration),
    ensures
        0 <= next_frame_spec(current, duration) < loop_length(duration),
{
}

/// Playback from frame 0 visits every frame in order and is back at 0 after
/// one loop length.
pub proof fn lemma_playback_cycles(duration: int, steps: nat)
    requires
        steps <= loop_length(duration),
    ensures
        steps < loop_length(duration) ==> advance(0, duration, steps) == steps,
        steps == loop_length(duration) ==> advance(0, duration, steps) == 0,
    decreases steps,
{
    if steps > 0 {
        lemma_playback_cycles(duration, (steps - 1) as nat);
    }
}

impl PlaybackClock {
    /// Both terms of the rate are raised to at least 1.
    pub fn new(fps_num: u32, fps_den: u32) -> (c: Self)
        ensures
            c.fps_num == if fps_num >= 1 { fps_num } else { 1 },
            c.fps_den == if fps_den >= 1 { fps_den } else { 1 },
    {
        PlaybackClock {
            fps_num: if fps_num >= 1 { fps_num } else { 1 },
            fps_den: if fps_den >= 1 { fps_den } else { 1 },
        }
    }

    /// The frame after `current`; once it reaches `duration` (taken as at
    /// least 1) playback wraps to frame 0.
    pub fn next_frame(&self, current: i64, duration: i64) -> (n: i64)
        requires
            current < i64::MAX,
        ensures
            n == next_frame_spec(current as int, duration as int),
    {
        let next = current + 1;
        let limit = if duration >= 1 { duration } else { 1 };
        if next >= limit { 0 } else { next }
    }
}

} // verus!
