//! What a resampler keeps of its input, and what it does when the ring it reads from runs
//! over or runs dry.
use vstd::prelude::*;
use vstd::arithmetic::div_mod::*;
use vstd::arithmetic::mul::*;
use crate::audio::ring::{least, Consumer, Shared};

verus! {

/// The taps of the filter.
pub const TAPS: usize = 32;

/// The phases of the filter.
pub const PHASES: usize = 128;

/// What a resampler could not deliver, in frames of its input.
#[derive(Debug, Clone, Copy, PartialEq, Eq, Structural)]
pub struct Loss {
    /// Input that never arrived, so the output has silence in it.
    pub starved: usize,
    /// Input thrown away to get a ring back down to its target. A burst, not a glitch: it
    /// costs a click and saves the latency it would have added.
    pub dropped: usize,
}

impl Default for Loss {
    fn default() -> (r: Self)
        ensures
            r.starved == 0,
            r.dropped == 0,
    {
        Loss { starved: 0, dropped: 0 }
    }
}

/// The state of a resampler, but for the filter and where in the input it stands.
#[derive(Debug)]
pub struct Resampler<T> {
    pub channels: usize,
    /// The level of the ring to hold, in frames.
    pub target: usize,
    /// Interleaved input, the first frames carried over from the previous call so that
    /// the filter keeps its history.
    pub staging: Vec<T>,
    /// How many frames there is room for.
    pub room: usize,
    /// How many frames are staged.
    pub filled: usize,
    /// Output stays silent until the ring has reached its target once, so that a cold
    /// start fills the buffer instead of underrunning against it forever.
    pub primed: bool,
    /// Input that never arrived and has not been reported.
    pub starved: usize,
}

/// What a look at the ring came to.
#[derive(Debug, Clone, Copy)]
pub struct Level {
    /// The frames that are queued.
    pub fill: usize,
    /// The frames that were thrown away.
    pub dropped: usize,
    /// Whether the ring had been handed a burst.
    pub resynced: bool,
    /// Whether the ring reached its target for the first time.
    pub newly_primed: bool,
}

/// Whole frames in a number of samples.
pub open spec fn frames(samples: int, channels: int) -> int {
    samples / channels
}

/// The frames to throw away of a ring that is this full: one far above its target is not
/// drifting, it has been handed a burst.
pub open spec fn excess(fill: int, target: int) -> int {
    if fill > 2 * target {
        fill - target
    } else {
        0
    }
}

impl<T: Copy> Resampler<T> {
    /// What every operation keeps.
    pub open spec fn wf(&self) -> bool {
        &&& self.channels > 0
        &&& 0 < self.target
        &&& TAPS <= self.room
        &&& self.staging@.len() == self.room * self.channels
        &&& self.filled <= self.room
    }

    /// A resampler that has seen nothing. `room` is the number of frames of input that
    /// its largest block of output can take.
    pub fn new(channels: usize, target_fill_frames: usize, room: usize, quiet: T) -> (r: Self)
        requires
            channels > 0,
            TAPS <= room,
            room * channels <= usize::MAX,
        ensures
            r.wf(),
            r.channels == channels,
            r.target == (if target_fill_frames == 0 {
                1
            } else {
                target_fill_frames
            }),
            r.room == room,
            r.filled == TAPS - 1,
            !r.primed,
            r.starved == 0,
            forall|i: int| 0 <= i < r.staging@.len() ==> r.staging@[i] == quiet,
    {
        let mut staging: Vec<T> = Vec::new();
        let n = room * channels;
        for i in 0..n
            invariant
                staging@.len() == i,
                forall|k: int| 0 <= k < i ==> staging@[k] == quiet,
        {
            staging.push(quiet);
        }
        Resampler {
            channels,
            target: if target_fill_frames == 0 {
                1
            } else {
                target_fill_frames
            },
            staging,
            room,
            filled: TAPS - 1,
            primed: false,
            starved: 0,
        }
    }

    /// Looks at the ring before a block is made: drops a burst, and notes when the target
    /// was reached.
    pub fn begin(&mut self, src: &mut Consumer, ring: &mut Shared<T>) -> (r: Level)
        requires
            old(self).wf(),
            old(ring).wf(),
        ensures
            final(self).wf(),
            final(ring).wf(),
            ({
                let c = old(self).channels as int;
                let t = old(self).target as int;
                let before = frames(old(ring)@.len() as int, c);
                let cut = excess(before, t);
                &&& r.dropped == cut
                &&& r.resynced == (before > 2 * t)
                &&& final(ring)@ == old(ring)@.skip(cut * c)
                &&& r.fill == before - cut
                &&& r.newly_primed == (!old(self).primed && r.fill >= t)
                &&& *final(self) == (Resampler {
                    primed: old(self).primed || r.fill >= t,
                    ..*old(self)
                })
            }),
            final(ring).capacity() == old(ring).capacity(),
            final(ring).lost == old(ring).lost,
            final(ring).producer_taken == old(ring).producer_taken,
            final(ring).consumer_taken == old(ring).consumer_taken,
    {
        let ghost queue = ring@;
        let ghost c = self.channels as int;
        let len = src.len(ring);
        let fill = len / self.channels;
        let mut level = Level { fill, dropped: 0, resynced: false, newly_primed: false };
        proof {
            lemma_fundamental_div_mod(len as int, c);
            lemma_mod_bound(len as int, c);
            lemma_mul_is_commutative(c, fill as int);
        }
        assert(queue.skip(0) =~= queue);
        if fill / 2 > self.target || (fill / 2 == self.target && fill % 2 == 1) {
            let cut = fill - self.target;
            assert(cut * c <= fill * c) by (nonlinear_arith)
                requires
                    cut <= fill,
                    c > 0,
            ;
            let samples = cut * self.channels;
            let gone = src.skip(ring, samples);
            assert(gone == samples);
            proof {
                lemma_div_multiples_vanish(cut as int, c);
                lemma_mul_is_commutative(cut as int, c);
            }
            let left = src.len(ring);
            proof {
                // What is left is the rest of the samples behind whole frames.
                assert(left == len - cut * c);
                lemma_hoist_over_denominator(len as int, -cut as int, c as nat);
                lemma_mul_is_commutative(-cut as int, c);
                assert(len + (-cut as int) * c == len - cut * c) by (nonlinear_arith);
            }
            level.dropped = gone / self.channels;
            level.fill = left / self.channels;
            level.resynced = true;
        }
        if !self.primed && level.fill >= self.target {
            self.primed = true;
            level.newly_primed = true;
        }
        level
    }

    /// Stages the input that a block needs, `needed` frames in all. Says nothing where
    /// the block is bigger than this was built for: growing the buffer would allocate on
    /// an audio thread, so the block is dropped instead.
    pub fn stage(
        &mut self,
        src: &mut Consumer,
        ring: &mut Shared<T>,
        needed: usize,
        quiet: T,
    ) -> (r: bool)
        requires
            old(self).wf(),
            old(ring).wf(),
            old(self).starved + needed <= usize::MAX,
        ensures
            final(self).wf(),
            final(ring).wf(),
            r == (needed <= old(self).room),
            !r ==> {
                &&& final(ring)@ == old(ring)@
                &&& final(self).filled == TAPS - 1
                &&& !final(self).primed
                &&& final(self).starved == old(self).starved
                &&& forall|i: int|
                    0 <= i < final(self).staging@.len() ==> final(self).staging@[i] == quiet
            },
            r && needed <= old(self).filled ==> *final(self) == *old(self) && final(ring)@ == old(
                ring,
            )@,
            r && needed > old(self).filled ==> {
                let c = old(self).channels as int;
                let at = old(self).filled * c;
                let want = (needed - old(self).filled) * c;
                let got = least(want, old(ring)@.len() as int);
                &&& final(ring)@ == old(ring)@.skip(got)
                &&& final(self).filled == needed
                &&& final(self).staging@ == old(self).staging@.take(at) + old(ring)@.take(got)
                    + Seq::new((want - got) as nat, |i: int| quiet) + old(self).staging@.skip(
                    at + want,
                )
                &&& final(self).starved == old(self).starved + frames(want - got, c)
                &&& final(self).primed == (old(self).primed && got == want)
            },
            final(self).channels == old(self).channels,
            final(self).target == old(self).target,
            final(self).room == old(self).room,
            final(ring).capacity() == old(ring).capacity(),
            final(ring).lost == old(ring).lost,
            final(ring).producer_taken == old(ring).producer_taken,
            final(ring).consumer_taken == old(ring).consumer_taken,
    {
        if needed > self.room {
            self.reset(quiet);
            return false;
        }
        if needed <= self.filled {
            return true;
        }
        let ghost c = self.channels as int;
        let ghost first = *self;
        let ghost queue = ring@;
        let fresh = needed - self.filled;
        proof {
            let f = self.filled as int;
            let room = self.room as int;
            let n = needed as int;
            assert(self.staging.len() == room * c);
            assert(f * c + (n - f) * c == n * c && n * c <= room * c && 0 <= f * c && 0 <= (n - f)
                * c) by (nonlinear_arith)
                requires
                    0 <= f <= n <= room,
                    c > 0,
            ;
        }
        let at = self.filled * self.channels;
        let want = fresh * self.channels;
        let got = src.pop_at(ring, &mut self.staging, at, at + want);
        let ghost popped = self.staging@;
        for i in at + got..at + want
            invariant
                self.channels == first.channels,
                self.target == first.target,
                self.room == first.room,
                self.filled == first.filled,
                self.primed == first.primed,
                self.starved == first.starved,
                at + want <= popped.len(),
                got <= want,
                self.staging.len() == popped.len(),
                self.staging@ == popped.take(at + got) + Seq::new(
                    (i - at - got) as nat,
                    |k: int| quiet,
                ) + popped.skip(i as int),
        {
            self.staging.set(i, quiet);
            assert(self.staging@ =~= popped.take(at + got) + Seq::new(
                (i + 1 - at - got) as nat,
                |k: int| quiet,
            ) + popped.skip(i + 1));
        }
        proof {
            assert(popped =~= first.staging@.take(at as int) + queue.take(got as int)
                + first.staging@.skip(at + got));
            assert(self.staging@ =~= first.staging@.take(at as int) + queue.take(got as int)
                + Seq::new((want - got) as nat, |i: int| quiet) + first.staging@.skip(at + want));
            let missing = want - got;
            let n = fresh as int;
            lemma_div_is_ordered(missing, want as int, c);
            lemma_div_multiples_vanish(n, c);
            lemma_mul_is_commutative(n, c);
            lemma_div_pos_is_pos(missing, c);
        }
        if got < want {
            self.starved = self.starved + (want - got) / self.channels;
            self.primed = false;
        } else {
            proof {
                lemma_div_basics(c);
            }
        }
        self.filled = needed;
        true
    }

    /// Forgets what was consumed of the staged input and reports what never arrived.
    pub fn finish(&mut self, consumed: usize) -> (r: usize)
        requires
            old(self).wf(),
            consumed <= old(self).filled,
        ensures
            final(self).wf(),
            r == old(self).starved,
            final(self).starved == 0,
            final(self).filled == old(self).filled - consumed,
            ({
                let c = old(self).channels as int;
                let kept = (old(self).filled - consumed) * c;
                final(self).staging@ == old(self).staging@.subrange(
                    consumed * c,
                    old(self).filled * c,
                ) + old(self).staging@.skip(kept)
            }),
            final(self).primed == old(self).primed,
            final(self).channels == old(self).channels,
            final(self).target == old(self).target,
            final(self).room == old(self).room,
    {
        let ghost first = *self;
        let ghost c = self.channels as int;
        proof {
            let f = self.filled as int;
            let room = self.room as int;
            let d = consumed as int;
            assert(self.staging.len() == room * c);
            assert(d * c + (f - d) * c == f * c && f * c <= room * c && 0 <= d * c && 0 <= (f - d)
                * c) by (nonlinear_arith)
                requires
                    0 <= d <= f <= room,
                    c > 0,
            ;
        }
        let from = consumed * self.channels;
        let kept = (self.filled - consumed) * self.channels;
        for i in 0..kept
            invariant
                self.channels == first.channels,
                self.target == first.target,
                self.room == first.room,
                self.filled == first.filled,
                self.primed == first.primed,
                self.starved == first.starved,
                self.staging.len() == first.staging.len(),
                from + kept <= first.staging.len(),
                forall|k: int| 0 <= k < i ==> self.staging@[k] == first.staging@[k + from],
                forall|k: int|
                    i <= k < first.staging@.len() ==> self.staging@[k] == first.staging@[k],
        {
            let sample = self.staging[from + i];
            self.staging.set(i, sample);
        }
        assert(self.staging@ =~= first.staging@.subrange(
            from as int,
            first.filled * c,
        ) + first.staging@.skip(kept as int));
        self.filled = self.filled - consumed;
        let starved = self.starved;
        self.starved = 0;
        starved
    }

    fn reset(&mut self, quiet: T)
        requires
            old(self).wf(),
        ensures
            final(self).wf(),
            final(self).filled == TAPS - 1,
            !final(self).primed,
            final(self).starved == old(self).starved,
            final(self).channels == old(self).channels,
            final(self).target == old(self).target,
            final(self).room == old(self).room,
            forall|i: int|
                0 <= i < final(self).staging@.len() ==> final(self).staging@[i] == quiet,
    {
        let ghost first = *self;
        let n = self.staging.len();
        for i in 0..n
            invariant
                self.channels == first.channels,
                self.target == first.target,
                self.room == first.room,
                self.starved == first.starved,
                self.staging@.len() == first.staging@.len(),
                n == first.staging@.len(),
                forall|k: int| 0 <= k < i ==> self.staging@[k] == quiet,
        {
            self.staging.set(i, quiet);
        }
        self.filled = TAPS - 1;
        self.primed = false;
    }
}

/// However much a ring was handed at once, a look at it leaves no more than twice its
/// target, and never less than the target where there was a burst.
pub proof fn law_a_burst_is_dropped_rather_than_drained(fill: int, target: int)
    requires
        fill >= 0,
        target > 0,
    ensures
        fill - excess(fill, target) <= 2 * target,
        excess(fill, target) > 0 ==> fill - excess(fill, target) == target,
        fill <= 2 * target ==> excess(fill, target) == 0,
{
}

} // verus!
