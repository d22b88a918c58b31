//! How samples travel through the noise suppressor.
//!
//! The model works in frames of its own, and whoever calls does not: what comes in waits
//! for a whole frame, what comes out waits to be handed back, and the queue that hands
//! back starts a frame ahead of itself so that nobody is ever handed a hole. The first
//! frame out of the model is fade-in artefacts and is replaced with silence.
use vstd::prelude::*;
use crate::audio::ring::least;

verus! {

/// The samples in one frame of the model.
pub const FRAME: usize = 480;

/// The taps of a resampler beside the suppressor.
pub const TAPS: usize = 32;

/// How many frames the noise gate stays open after the last frame of voice: long enough to
/// carry the gaps inside a sentence.
pub const HOLD_FRAMES: usize = 25;

/// A first in, first out queue of bounded size.
#[derive(Debug)]
pub struct Fifo<T> {
    pub items: Vec<T>,
    pub capacity: usize,
}

impl<T: Copy> Fifo<T> {
    pub open spec fn view(&self) -> Seq<T> {
        self.items@
    }

    /// What every operation keeps.
    pub open spec fn wf(&self) -> bool {
        self.items@.len() <= self.capacity
    }

    /// A queue with nothing in it.
    pub fn new(capacity: usize) -> (r: Self)
        ensures
            r.wf(),
            r@ == Seq::<T>::empty(),
            r.capacity == capacity,
    {
        Fifo { items: Vec::new(), capacity }
    }

    /// How much is queued.
    pub fn len(&self) -> (r: usize)
        ensures
            r == self@.len(),
    {
        self.items.len()
    }

    /// Queues what fits: dropping the overflow is better than failing in something that
    /// is feeding a call.
    pub fn push(&mut self, src: &[T])
        requires
            old(self).wf(),
        ensures
            final(self).wf(),
            final(self).capacity == old(self).capacity,
            final(self)@ == old(self)@ + src@.take(
                least(src@.len() as int, old(self).capacity - old(self)@.len()),
            ),
    {
        let ghost before = self@;
        let free = self.capacity - self.items.len();
        let n: usize = if src.len() <= free {
            src.len()
        } else {
            free
        };
        assert(before + src@.take(0) =~= before);
        let ghost cap = self.capacity;
        for i in 0..n
            invariant
                self.capacity == cap,
                n <= src@.len(),
                self@ == before + src@.take(i as int),
        {
            self.items.push(src[i]);
            assert(self@ =~= before + src@.take(i + 1));
        }
    }

    /// Queues one sample, where there is room.
    pub fn push_one(&mut self, sample: T)
        requires
            old(self).wf(),
        ensures
            final(self).wf(),
            final(self).capacity == old(self).capacity,
            final(self)@ == (if old(self)@.len() < old(self).capacity {
                old(self)@.push(sample)
            } else {
                old(self)@
            }),
    {
        if self.items.len() < self.capacity {
            self.items.push(sample);
        }
    }

    /// Reads what is there into `dst` from place `from` on. The rest of `dst` is left
    /// untouched.
    pub fn pop_at(&mut self, dst: &mut Vec<T>, from: usize)
        requires
            old(self).wf(),
            from <= old(dst)@.len(),
        ensures
            final(self).wf(),
            final(self).capacity == old(self).capacity,
            ({
                let n = least(old(dst)@.len() - from, old(self)@.len() as int);
                &&& final(self)@ == old(self)@.skip(n)
                &&& final(dst)@ == old(dst)@.take(from as int) + old(self)@.take(n) + old(
                    dst,
                )@.skip(from + n)
            }),
    {
        let ghost queue = self@;
        let ghost whole = dst@;
        let room = dst.len() - from;
        let n: usize = if room <= self.items.len() {
            room
        } else {
            self.items.len()
        };
        assert(whole =~= whole.take(from as int) + queue.take(0) + whole.skip(from as int));
        let ghost cap = self.capacity;
        for i in 0..n
            invariant
                self@ == queue,
                self.capacity == cap,
                n <= queue.len(),
                from + n <= whole.len(),
                dst.len() == whole.len(),
                dst@ == whole.take(from as int) + queue.take(i as int) + whole.skip(from + i),
        {
            dst.set(from + i, self.items[i]);
            assert(dst@ =~= whole.take(from as int) + queue.take(i + 1) + whole.skip(
                from + i + 1,
            ));
        }
        let rest = self.items.split_off(n);
        assert(rest@ =~= queue.skip(n as int));
        self.items = rest;
    }

    /// Reads what is there. The rest of `dst` is left untouched.
    pub fn pop(&mut self, dst: &mut Vec<T>)
        requires
            old(self).wf(),
        ensures
            final(self).wf(),
            final(self).capacity == old(self).capacity,
            ({
                let n = least(old(dst)@.len() as int, old(self)@.len() as int);
                &&& final(self)@ == old(self)@.skip(n)
                &&& final(dst)@ == old(self)@.take(n) + old(dst)@.skip(n)
            }),
    {
        let ghost whole = dst@;
        let ghost queue = self@;
        self.pop_at(dst, 0);
        proof {
            let n = least(whole.len() as int, queue.len() as int);
            assert(whole.take(0) + queue.take(n) + whole.skip(0 + n) =~= queue.take(n)
                + whole.skip(n));
        }
    }

    /// Throws away what is queued.
    pub fn clear(&mut self)
        ensures
            final(self).wf(),
            final(self)@ == Seq::<T>::empty(),
            final(self).capacity == old(self).capacity,
    {
        self.items = Vec::new();
    }

    /// Throws away what is queued and starts again from `samples` of silence.
    pub fn silence(&mut self, samples: usize, quiet: T)
        ensures
            final(self).wf(),
            final(self)@ == Seq::new(
                least(samples as int, old(self).capacity as int) as nat,
                |i: int| quiet,
            ),
            final(self).capacity == old(self).capacity,
    {
        let n: usize = if samples <= self.capacity {
            samples
        } else {
            self.capacity
        };
        let mut items: Vec<T> = Vec::new();
        for i in 0..n
            invariant
                items@ == Seq::new(i as nat, |k: int| quiet),
        {
            items.push(quiet);
            assert(items@ =~= Seq::new((i + 1) as nat, |k: int| quiet));
        }
        self.items = items;
    }
}

/// What a frame of the model turns into.
#[derive(Debug)]
pub struct Emission<T> {
    /// The frame to hand back first, where the noise gate was sitting on one that it lets go.
    pub released: Option<Vec<T>>,
    /// The frame to hand back.
    pub frame: Vec<T>,
    /// Whether the noise gate rides over that frame.
    pub gated: bool,
}

/// The suppressor, but for the model itself and its gains.
#[derive(Debug)]
pub struct Denoiser<T> {
    /// Audio at the model's rate, waiting for a whole frame of it.
    pub pending: Fifo<T>,
    /// Audio back at the caller's rate, waiting to be handed out.
    pub ready: Fifo<T>,
    /// The frame the noise gate is holding back so it can see one frame past the audio it is
    /// deciding about. Only used while the noise gate is armed.
    pub held: Vec<T>,
    pub holding: bool,
    /// One model frame's worth of the caller's audio.
    pub chunk: usize,
    pub enabled: bool,
    pub started: bool,
    /// How many more frames the noise gate stays open.
    pub hold: usize,
}

/// A frame of silence.
pub open spec fn quiet_frame<T>(quiet: T) -> Seq<T> {
    Seq::new(FRAME as nat, |i: int| quiet)
}

fn silent_frame<T: Copy>(quiet: T) -> (r: Vec<T>)
    ensures
        r@ == quiet_frame(quiet),
{
    let mut v: Vec<T> = Vec::new();
    for i in 0..FRAME
        invariant
            v@ == Seq::new(i as nat, |k: int| quiet),
    {
        v.push(quiet);
        assert(v@ =~= Seq::new((i + 1) as nat, |k: int| quiet));
    }
    v
}

impl<T: Copy> Denoiser<T> {
    /// What every operation keeps.
    pub open spec fn wf(&self) -> bool {
        &&& self.pending.wf()
        &&& self.ready.wf()
        &&& self.chunk + 2 * TAPS <= self.ready.capacity
        &&& self.hold <= HOLD_FRAMES
    }

    /// Nothing has gone through since it was last started.
    pub open spec fn fresh(&self, quiet: T) -> bool {
        &&& self.pending@ == Seq::<T>::empty()
        &&& self.ready@ == Seq::new((self.chunk + 2 * TAPS) as nat, |i: int| quiet)
        &&& !self.started
        &&& !self.holding
        &&& self.hold == 0
    }

    /// What is queued.
    pub open spec fn load(&self) -> Load {
        Load { pending: self.pending@.len() as int, ready: self.ready@.len() as int }
    }

    /// The caller's audio is at the model's own rate.
    pub open spec fn at_model_rate(&self) -> bool {
        &&& self.chunk == FRAME
        &&& self.pending.capacity == pending_room()
        &&& self.ready.capacity == ready_room()
    }

    /// A suppressor that is switched off. `chunk` is one model frame's worth of the
    /// caller's audio and `per_chunk` what that comes to at the model's rate.
    pub fn new(chunk: usize, per_chunk: usize, quiet: T) -> (r: Self)
        requires
            0 < chunk,
            6 * (chunk + TAPS) <= usize::MAX,
            FRAME + per_chunk + TAPS <= usize::MAX,
        ensures
            r.wf(),
            r.fresh(quiet),
            r.chunk == chunk,
            r.pending.capacity == FRAME + per_chunk + TAPS,
            r.ready.capacity == 6 * (chunk + TAPS),
            !r.enabled,
            chunk == FRAME && per_chunk == FRAME ==> r.at_model_rate() && r.load() == fresh_load(),
    {
        let mut d = Denoiser {
            pending: Fifo::new(FRAME + per_chunk + TAPS),
            ready: Fifo::new(6 * (chunk + TAPS)),
            held: Vec::new(),
            holding: false,
            chunk,
            enabled: false,
            started: false,
            hold: 0,
        };
        d.reset(quiet);
        d
    }

    /// Starts from silence. Anything held back waiting for a whole frame is then already
    /// covered by what is waiting to go out.
    pub fn reset(&mut self, quiet: T)
        requires
            old(self).wf(),
        ensures
            final(self).wf(),
            final(self).fresh(quiet),
            final(self).chunk == old(self).chunk,
            final(self).enabled == old(self).enabled,
            final(self).pending.capacity == old(self).pending.capacity,
            final(self).ready.capacity == old(self).ready.capacity,
            old(self).at_model_rate() ==> final(self).at_model_rate() && final(self).load()
                == fresh_load(),
    {
        self.pending.clear();
        self.ready.silence(self.chunk + 2 * TAPS, quiet);
        self.started = false;
        self.holding = false;
        self.hold = 0;
    }

    /// Switches it on or off and says whether that changed anything. Turning it back on
    /// starts from silence rather than from whatever was left in the buffers when it went
    /// off, which would otherwise be replayed several frames late.
    pub fn set_enabled(&mut self, enabled: bool, quiet: T) -> (r: bool)
        requires
            old(self).wf(),
        ensures
            final(self).wf(),
            r == (enabled != old(self).enabled),
            final(self).enabled == enabled,
            r ==> final(self).fresh(quiet),
            !r ==> *final(self) == *old(self),
            final(self).chunk == old(self).chunk,
            final(self).pending.capacity == old(self).pending.capacity,
            final(self).ready.capacity == old(self).ready.capacity,
            old(self).at_model_rate() ==> final(self).at_model_rate(),
            r && old(self).at_model_rate() ==> final(self).load() == fresh_load(),
    {
        if enabled != self.enabled {
            self.enabled = enabled;
            self.reset(quiet);
            true
        } else {
            false
        }
    }

    /// Takes in samples at the model's rate.
    pub fn take_in(&mut self, src: &[T])
        requires
            old(self).wf(),
        ensures
            final(self).wf(),
            final(self).pending@ == old(self).pending@ + src@.take(
                least(src@.len() as int, old(self).pending.capacity - old(self).pending@.len()),
            ),
            *final(self) == (Denoiser { pending: final(self).pending, ..*old(self) }),
            final(self).pending.capacity == old(self).pending.capacity,
            old(self).at_model_rate() ==> final(self).at_model_rate() && final(self).load()
                == with_taken(old(self).load(), src@.len() as int),
    {
        self.pending.push(src);
    }

    /// Puts out samples at the caller's rate, to be handed back.
    pub fn put_out(&mut self, src: &[T])
        requires
            old(self).wf(),
        ensures
            final(self).wf(),
            final(self).ready@ == old(self).ready@ + src@.take(
                least(src@.len() as int, old(self).ready.capacity - old(self).ready@.len()),
            ),
            *final(self) == (Denoiser { ready: final(self).ready, ..*old(self) }),
            final(self).ready.capacity == old(self).ready.capacity,
            old(self).at_model_rate() ==> final(self).at_model_rate() && final(self).load()
                == with_put(old(self).load(), src@.len() as int),
    {
        self.ready.push(src);
    }

    /// The next whole frame for the model, where there is one.
    pub fn next_frame(&mut self, quiet: T) -> (r: Option<Vec<T>>)
        requires
            old(self).wf(),
        ensures
            final(self).wf(),
            match r {
                Some(frame) => {
                    &&& old(self).pending@.len() >= FRAME
                    &&& frame@ == old(self).pending@.take(FRAME as int)
                    &&& final(self).pending@ == old(self).pending@.skip(FRAME as int)
                    &&& final(self).pending.capacity == old(self).pending.capacity
                    &&& final(self).ready == old(self).ready
                    &&& final(self).held == old(self).held
                    &&& final(self).holding == old(self).holding
                    &&& final(self).started == old(self).started
                    &&& final(self).hold == old(self).hold
                    &&& final(self).chunk == old(self).chunk
                    &&& final(self).enabled == old(self).enabled
                    &&& old(self).at_model_rate() ==> final(self).at_model_rate()
                    &&& final(self).load() == with_frame(old(self).load())
                },
                None => old(self).pending@.len() < FRAME && *final(self) == *old(self),
            },
    {
        if self.pending.len() < FRAME {
            return None;
        }
        let mut frame = silent_frame(quiet);
        let ghost queue = self.pending@;
        self.pending.pop(&mut frame);
        assert(frame@ =~= queue.take(FRAME as int));
        Some(frame)
    }

    /// What a frame out of the model turns into. The first one ever is never worth
    /// hearing. While the noise gate is armed every frame waits for the next, which costs a
    /// frame of silence once; disarming hands back the frame the noise gate was sitting on
    /// rather than leaving a hole.
    pub fn model_done(&mut self, output: Vec<T>, armed: bool, quiet: T) -> (r: Emission<T>)
        requires
            old(self).wf(),
            output@.len() == FRAME,
        ensures
            final(self).wf(),
            final(self).started,
            final(self).holding == armed,
            final(self).pending == old(self).pending,
            final(self).ready == old(self).ready,
            final(self).hold == old(self).hold,
            final(self).chunk == old(self).chunk,
            final(self).enabled == old(self).enabled,
            ({
                let heard = if old(self).started {
                    output@
                } else {
                    quiet_frame(quiet)
                };
                let before = *old(self);
                if armed {
                    &&& r.released is None
                    &&& r.gated
                    &&& r.frame@ == (if before.holding {
                        before.held@
                    } else {
                        quiet_frame(quiet)
                    })
                    &&& final(self).held@ == heard
                } else {
                    &&& r.frame@ == heard
                    &&& !r.gated
                    &&& match r.released {
                        Some(f) => before.holding && f@ == before.held@,
                        None => !before.holding,
                    }
                }
            }),
    {
        let heard = if self.started {
            output
        } else {
            silent_frame(quiet)
        };
        self.started = true;
        if armed {
            let mut before: Vec<T> = heard;
            std::mem::swap(&mut self.held, &mut before);
            if !self.holding {
                self.holding = true;
                before = silent_frame(quiet);
            }
            Emission { released: None, frame: before, gated: true }
        } else if self.holding {
            self.holding = false;
            let mut before: Vec<T> = Vec::new();
            std::mem::swap(&mut self.held, &mut before);
            Emission { released: Some(before), frame: heard, gated: false }
        } else {
            Emission { released: None, frame: heard, gated: false }
        }
    }

    /// Whether the noise gate is open for a frame, given whether it or the one behind it is
    /// likely to be voice.
    pub fn gate(&mut self, voiced: bool) -> (r: bool)
        requires
            old(self).wf(),
        ensures
            final(self).wf(),
            final(self).hold == (if voiced {
                HOLD_FRAMES as int
            } else if old(self).hold > 0 {
                old(self).hold - 1
            } else {
                0
            }),
            r == (final(self).hold > 0),
            *final(self) == (Denoiser { hold: final(self).hold, ..*old(self) }),
    {
        if voiced {
            self.hold = HOLD_FRAMES;
        } else if self.hold > 0 {
            self.hold = self.hold - 1;
        }
        self.hold > 0
    }

    /// Hands back as many samples as were taken in. Where there are fewer, silence stands
    /// before them.
    pub fn deliver(&mut self, chunk: &mut Vec<T>, quiet: T)
        requires
            old(self).wf(),
        ensures
            final(self).wf(),
            ({
                let n = least(old(chunk)@.len() as int, old(self).ready@.len() as int);
                let short = old(chunk)@.len() - n;
                &&& final(chunk)@ == Seq::new(short as nat, |i: int| quiet) + old(
                    self,
                ).ready@.take(n)
                &&& final(self).ready@ == old(self).ready@.skip(n)
            }),
            final(self).pending == old(self).pending,
            final(self).ready.capacity == old(self).ready.capacity,
            old(self).at_model_rate() ==> final(self).at_model_rate(),
            final(self).load() == with_delivered(old(self).load(), old(chunk)@.len() as int),
            final(self).held == old(self).held,
            final(self).holding == old(self).holding,
            final(self).started == old(self).started,
            final(self).hold == old(self).hold,
            final(self).chunk == old(self).chunk,
            final(self).enabled == old(self).enabled,
    {
        let short: usize = if chunk.len() > self.ready.len() {
            chunk.len() - self.ready.len()
        } else {
            0
        };
        let ghost len = chunk@.len();
        for i in 0..short
            invariant
                chunk.len() == len,
                short <= len,
                forall|k: int| 0 <= k < i ==> chunk@[k] == quiet,
        {
            chunk.set(i, quiet);
        }
        let ghost muted = chunk@;
        let ghost queue = self.ready@;
        self.ready.pop_at(chunk, short);
        proof {
            let n = least(len as int, queue.len() as int);
            assert(chunk@ =~= Seq::new((len - n) as nat, |i: int| quiet) + queue.take(n));
        }
    }
}

/// How many samples wait for a whole frame, and how many to be handed back.
pub ghost struct Load {
    pub pending: int,
    pub ready: int,
}

/// The room for what waits for a whole frame, at the model's own rate.
pub open spec fn pending_room() -> int {
    2 * FRAME + TAPS
}

/// The room for what waits to be handed back, at the model's own rate.
pub open spec fn ready_room() -> int {
    6 * (FRAME + TAPS)
}

/// The load once samples were taken in.
pub open spec fn with_taken(l: Load, samples: int) -> Load {
    Load { pending: l.pending + least(samples, pending_room() - l.pending), ..l }
}

/// The load once a frame was taken out for the model.
pub open spec fn with_frame(l: Load) -> Load {
    Load { pending: l.pending - FRAME, ..l }
}

/// The load once samples were put out.
pub open spec fn with_put(l: Load, samples: int) -> Load {
    Load { ready: l.ready + least(samples, ready_room() - l.ready), ..l }
}

/// The load once samples were handed back.
pub open spec fn with_delivered(l: Load, samples: int) -> Load {
    Load { ready: l.ready - least(samples, l.ready), ..l }
}

/// The load once the model went over its frames, each of which put out so many samples.
pub open spec fn with_frames(l: Load, puts: Seq<int>) -> Load
    decreases puts.len(),
{
    if puts.len() == 0 {
        l
    } else {
        with_put(with_frame(with_frames(l, puts.drop_last())), puts.last())
    }
}

/// One call: how many samples come in, and what each frame of the model put out.
pub ghost struct Call {
    pub samples: int,
    pub puts: Seq<int>,
}

/// A call takes in some samples, no more than a chunk, and the model goes over every whole
/// frame there then is. Each puts out a frame, and one that the noise gate held back besides
/// where it lets go of one.
pub open spec fn is_call(l: Load, c: Call) -> bool {
    &&& 0 < c.samples <= FRAME
    &&& c.puts.len() == with_taken(l, c.samples).pending / (FRAME as int)
    &&& forall|i: int|
        0 <= i < c.puts.len() ==> #[trigger] c.puts[i] == FRAME || c.puts[i] == 2 * FRAME
}

/// The load when a call comes to hand samples back.
pub open spec fn when_due(l: Load, c: Call) -> Load {
    with_frames(with_taken(l, c.samples), c.puts)
}

/// The load after a run of calls.
pub open spec fn after_calls(l: Load, calls: Seq<Call>) -> Load
    decreases calls.len(),
{
    if calls.len() == 0 {
        l
    } else {
        let c = calls.last();
        with_delivered(when_due(after_calls(l, calls.drop_last()), c), c.samples)
    }
}

/// Each of a run of calls is one.
pub open spec fn are_calls(l: Load, calls: Seq<Call>) -> bool
    decreases calls.len(),
{
    calls.len() > 0 ==> are_calls(l, calls.drop_last()) && is_call(
        after_calls(l, calls.drop_last()),
        calls.last(),
    )
}

/// The load of a suppressor that nothing has gone through.
pub open spec fn fresh_load() -> Load {
    Load { pending: 0, ready: FRAME + 2 * TAPS }
}

proof fn lemma_one_call(l: Load, c: Call)
    requires
        0 <= l.pending < FRAME,
        0 <= l.ready <= ready_room(),
        l.pending + l.ready >= FRAME + 2 * TAPS,
        is_call(l, c),
    ensures
        when_due(l, c).ready >= c.samples,
        ({
            let next = with_delivered(when_due(l, c), c.samples);
            &&& 0 <= next.pending < FRAME
            &&& 0 <= next.ready <= ready_room()
            &&& next.pending + next.ready >= FRAME + 2 * TAPS
        }),
{
    let taken = with_taken(l, c.samples);
    assert(taken.pending == l.pending + c.samples);
    if taken.pending < FRAME {
        assert(taken.pending / (FRAME as int) == 0);
        assert(with_frames(taken, c.puts) == taken);
    } else {
        assert(taken.pending / (FRAME as int) == 1);
        assert(with_frames(taken, c.puts.drop_last()) == taken);
        assert(c.puts.last() == c.puts[0]);
    }
}

/// At the model's own rate any frame size works, and the sizes may differ from call to call:
/// from a fresh start, no call is ever handed a hole. What does not wait for a whole frame
/// waits to go out, and together that stays a frame and the two margins ahead.
pub proof fn law_the_queue_never_runs_dry(calls: Seq<Call>)
    requires
        are_calls(fresh_load(), calls),
    ensures
        calls.len() > 0 ==> when_due(
            after_calls(fresh_load(), calls.drop_last()),
            calls.last(),
        ).ready >= calls.last().samples,
        ({
            let l = after_calls(fresh_load(), calls);
            &&& 0 <= l.pending < FRAME
            &&& 0 <= l.ready <= ready_room()
            &&& l.pending + l.ready >= FRAME + 2 * TAPS
        }),
    decreases calls.len(),
{
    if calls.len() > 0 {
        law_the_queue_never_runs_dry(calls.drop_last());
        lemma_one_call(after_calls(fresh_load(), calls.drop_last()), calls.last());
    }
}

/// The noise gate closes only once it has heard no voice for as long as it holds.
pub proof fn law_the_gate_holds(frames: nat)
    ensures
        frames < HOLD_FRAMES ==> held_after(HOLD_FRAMES as int, frames) > 0,
        frames >= HOLD_FRAMES ==> held_after(HOLD_FRAMES as int, frames) == 0,
{
    lemma_held_after(HOLD_FRAMES as int, frames);
}

/// How much longer the noise gate stays open once frames without voice went by.
pub open spec fn held_after(hold: int, frames: nat) -> int
    decreases frames,
{
    if frames == 0 {
        hold
    } else {
        let before = held_after(hold, (frames - 1) as nat);
        if before > 0 {
            before - 1
        } else {
            0
        }
    }
}

proof fn lemma_held_after(hold: int, frames: nat)
    requires
        hold >= 0,
    ensures
        held_after(hold, frames) == if frames < hold {
            hold - frames
        } else {
            0
        },
    decreases frames,
{
    if frames > 0 {
        lemma_held_after(hold, (frames - 1) as nat);
    }
}

} // verus!
