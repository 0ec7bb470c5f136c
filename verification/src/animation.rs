//! Frame animations: a list of source frames with per-frame tick counts.

use vstd::prelude::*;
use vstd::math::min;
use crate::types::Rect;

verus! {

/// Total of a sequence of tick counts.
pub open spec fn sum_ticks(s: Seq<usize>) -> int
    decreases s.len(),
{
    if s.len() == 0 {
        0
    } else {
        sum_ticks(s.drop_last()) + s.last()
    }
}

/// Walk frames and timings in step from `i` with `acc` ticks spent, returning
/// the first frame whose cumulative tick count reaches `tick`, or the last
/// frame when the animation has run out.
pub open spec fn frame_search(frames: Seq<Rect>, timing: Seq<usize>, tick: int, i: int, acc: int) -> Rect
    decreases min(frames.len() as int, timing.len() as int) - i,
{
    let n = min(frames.len() as int, timing.len() as int);
    if i < 0 || i >= n {
        frames.last()
    } else if acc + timing[i] >= tick {
        frames[i]
    } else {
        frame_search(frames, timing, tick, i + 1, acc + timing[i])
    }
}

/// A prefix of the timings never outweighs the whole.
proof fn lemma_sum_ticks_prefix(s: Seq<usize>, j: int)
    requires
        0 <= j <= s.len(),
    ensures
        sum_ticks(s.take(j)) <= sum_ticks(s),
    decreases s.len() - j,
{
    if j == s.len() {
        assert(s.take(j) =~= s);
    } else {
        lemma_sum_ticks_prefix(s, j + 1);
        assert(s.take(j + 1).drop_last() =~= s.take(j));
        assert(s.take(j + 1).last() == s[j]);
    }
}

/// An animation: source frames, how many ticks each frame lasts, and whether
/// the sequence loops.
#[derive(Clone, Debug)]
pub struct Animation {
    pub frames: Vec<Rect>,
    pub timing: Vec<usize>,
    pub looping: bool,
    pub done: bool,
    pub duration: usize,
}

impl Animation {
    pub fn new(frames: Vec<Rect>, timing: Vec<usize>, looping: bool) -> (r: Animation)
        requires
            sum_ticks(timing@) <= usize::MAX,
        ensures
            r.frames == frames,
            r.timing == timing,
            r.looping == looping,
            !r.done,
            r.duration == sum_ticks(timing@),
    {
        proof {
            assert forall|j: int| 0 <= j <= timing@.len() implies sum_ticks(
                #[trigger] timing@.take(j),
            ) <= sum_ticks(timing@) by {
                lemma_sum_ticks_prefix(timing@, j);
            }
        }
        let mut duration: usize = 0;
        let mut i: usize = 0;
        while i < timing.len()
            invariant
                i <= timing.len(),
                duration == sum_ticks(timing@.take(i as int)),
                sum_ticks(timing@) <= usize::MAX,
                forall|j: int| 0 <= j <= timing@.len() ==> sum_ticks(#[trigger] timing@.take(j))
                    <= sum_ticks(timing@),
            decreases timing.len() - i,
        {
            proof {
                assert(timing@.take(i + 1).drop_last() =~= timing@.take(i as int));
                assert(timing@.take(i + 1).last() == timing@[i as int]);
            }
            duration = duration + timing[i];
            i = i + 1;
        }
        proof {
            assert(timing@.take(timing@.len() as int) =~= timing@);
        }
        Animation { frames, timing, looping, done: false, duration }
    }

    /// The frame on display at `current_tick`: the first frame whose
    /// cumulative timing reaches the tick, or the last frame past the end.
    pub fn current_frame(&self, current_tick: usize) -> (r: Rect)
        requires
            self.frames.len() > 0,
            sum_ticks(self.timing@) <= usize::MAX,
        ensures
            r == frame_search(self.frames@, self.timing@, current_tick as int, 0, 0),
    {
        proof {
            assert forall|j: int| 0 <= j <= self.timing@.len() implies sum_ticks(
                #[trigger] self.timing@.take(j),
            ) <= sum_ticks(self.timing@) by {
                lemma_sum_ticks_prefix(self.timing@, j);
            }
        }
        let n = if self.frames.len() < self.timing.len() {
            self.frames.len()
        } else {
            self.timing.len()
        };
        let mut ticks_so_far: usize = 0;
        let mut i: usize = 0;
        while i < n
            invariant
                0 <= i <= n,
                n == min(self.frames@.len() as int, self.timing@.len() as int),
                self.frames.len() > 0,
                sum_ticks(self.timing@) <= usize::MAX,
                ticks_so_far == sum_ticks(self.timing@.take(i as int)),
                forall|j: int| 0 <= j <= self.timing@.len() ==> sum_ticks(
                    #[trigger] self.timing@.take(j),
                ) <= sum_ticks(self.timing@),
                frame_search(self.frames@, self.timing@, current_tick as int, 0, 0) == frame_search(
                    self.frames@,
                    self.timing@,
                    current_tick as int,
                    i as int,
                    ticks_so_far as int,
                ),
            decreases n - i,
        {
            proof {
                assert(self.timing@.take(i + 1).drop_last() =~= self.timing@.take(i as int));
                assert(self.timing@.take(i + 1).last() == self.timing@[i as int]);
            }
            ticks_so_far = ticks_so_far + self.timing[i];
            if ticks_so_far >= current_tick {
                return self.frames[i];
            }
            i = i + 1;
        }
        self.frames[self.frames.len() - 1]
    }
}

/// Where a playing animation currently stands.
#[derive(PartialEq, Eq, Clone, Copy, Debug, Structural)]
pub struct AnimationState {
    pub current_tick: usize,
    pub done: bool,
}

impl AnimationState {
    pub fn new() -> (r: AnimationState)
        ensures
            r.current_tick == 0,
            !r.done,
    {
        AnimationState { current_tick: 0, done: false }
    }
}

} // verus!
