//! The echo-cancelling bridge between the virtual devices and the real ones: what is
//! attached, what the canceller works on, and what is counted.
use vstd::prelude::*;
use crate::audio::device::Direction;
use crate::audio::resample::Loss;
use crate::order::sum_of;

verus! {

/// How many frames of reference the canceller will let pile up before it throws the
/// backlog away and carries on from the newest.
pub const BACKLOG_FRAMES: usize = 5;

/// The largest block any device is expected to hand a callback. Anything bigger is
/// dropped rather than allocated for.
pub const MAX_BLOCK_FRAMES: usize = 8192;

/// The UIDs of the two virtual devices the bridge itself owns.
pub const TAP_UID: &'static str = "WSSpeaker_2_UID";

pub const FEED_UID: &'static str = "WSMicrophone_2_UID";

/// What outlives any one engine: whether one is running, and how the microphone is
/// treated. The bridge is torn down and rebuilt every time somebody picks a different
/// microphone, and a noise suppressor that switched itself off each time would be its own
/// bug report.
#[derive(Debug, Clone, Copy, PartialEq, Eq, Structural)]
pub struct Bridge {
    pub running: bool,
    pub denoise: bool,
    /// The voice probability below which the microphone is faded out, as the bits of a
    /// single-precision number.
    pub threshold: u32,
}

impl Default for Bridge {
    fn default() -> (r: Self)
        ensures
            !r.running,
            !r.denoise,
            r.threshold == 0,
    {
        Bridge { running: false, denoise: false, threshold: 0 }
    }
}

/// The bits of one, as a single-precision number.
pub const ONE_BITS: u32 = 0x3f80_0000;

/// The bits of minus zero.
pub const MINUS_ZERO_BITS: u32 = 0x8000_0000;

/// The bits of infinity.
pub const INFINITY_BITS: u32 = 0x7f80_0000;

/// The bits of a single-precision number brought to where a probability can be. What is no
/// number becomes zero, and so does what is below it. What is above one becomes one. Without
/// their sign the bits rise as the numbers do.
pub open spec fn clamped(bits: u32) -> u32 {
    if bits > MINUS_ZERO_BITS || INFINITY_BITS < bits < MINUS_ZERO_BITS {
        0
    } else if ONE_BITS < bits <= INFINITY_BITS {
        ONE_BITS
    } else {
        bits
    }
}

/// The bridge once an engine was asked for.
pub open spec fn once_started(b: Bridge, ok: bool) -> Bridge {
    Bridge { running: ok, ..b }
}

/// The bridge once it was stopped.
pub open spec fn once_stopped(b: Bridge) -> Bridge {
    Bridge { running: false, ..b }
}

/// What is shown of a running bridge.
pub open spec fn shown<S>(b: Bridge, counted: S) -> Option<S> {
    if b.running {
        Some(counted)
    } else {
        None
    }
}

/// Starts the bridge, given what starting an engine came to. Starting a bridge that is
/// already up replaces it, so one that fails to start leaves none.
pub fn start(bridge: &mut Bridge, started: Result<(), String>) -> (r: Result<(), String>)
    ensures
        *final(bridge) == once_started(*old(bridge), started is Ok),
        match started {
            Ok(_) => r is Ok,
            Err(why) => r matches Err(e) && e@ == why@,
        },
{
    bridge.running = false;
    match started {
        Ok(_) => {
            bridge.running = true;
            Ok(())
        },
        Err(e) => Err(e),
    }
}

/// Stops the bridge. Safe to call when nothing is running, and safe to call twice.
pub fn stop(bridge: &mut Bridge)
    ensures
        *final(bridge) == once_stopped(*old(bridge)),
{
    bridge.running = false;
}

/// Whether the bridge is running.
pub fn is_running(bridge: &Bridge) -> (r: bool)
    ensures
        r == bridge.running,
{
    bridge.running
}

/// Whether the microphone is being run through the suppressor. Off by default.
pub fn denoise(bridge: &Bridge) -> (r: bool)
    ensures
        r == bridge.denoise,
{
    bridge.denoise
}

/// Turns noise suppression on or off.
pub fn set_denoise(bridge: &mut Bridge, on: bool)
    ensures
        *final(bridge) == (Bridge { denoise: on, ..*old(bridge) }),
{
    bridge.denoise = on;
}

/// The voice probability below which the microphone is faded out, as bits. Zero, the
/// default, leaves the noise gate open.
pub fn voice_threshold(bridge: &Bridge) -> (r: u32)
    ensures
        r == bridge.threshold,
{
    bridge.threshold
}

/// Sets the voice gate, brought to where a probability can be.
pub fn set_voice_threshold(bridge: &mut Bridge, bits: u32)
    ensures
        *final(bridge) == (Bridge { threshold: clamped(bits), ..*old(bridge) }),
{
    bridge.threshold = if bits > MINUS_ZERO_BITS || (INFINITY_BITS < bits && bits
        < MINUS_ZERO_BITS) {
        0
    } else if ONE_BITS < bits && bits <= INFINITY_BITS {
        ONE_BITS
    } else {
        bits
    };
}

/// What the bridge has moved since it started, given what its engine counted. None when
/// nothing is running.
pub fn stats<S>(bridge: &Bridge, counted: S) -> (r: Option<S>)
    ensures
        r == shown(*bridge, counted),
{
    if bridge.running {
        Some(counted)
    } else {
        None
    }
}

/// What may happen to a bridge besides its noise suppression being set.
pub ghost enum Step {
    Start { ok: bool },
    Stop,
    Threshold { bits: u32 },
}

/// The bridge after a run of steps.
pub open spec fn after_steps(b: Bridge, steps: Seq<Step>) -> Bridge
    decreases steps.len(),
{
    if steps.len() == 0 {
        b
    } else {
        let before = after_steps(b, steps.drop_last());
        match steps.last() {
            Step::Start { ok } => once_started(before, ok),
            Step::Stop => once_stopped(before),
            Step::Threshold { bits } => Bridge { threshold: clamped(bits), ..before },
        }
    }
}

/// Noise suppression stays as it was set, through any start and stop, and setting it leaves
/// alone whether the bridge is running and where the voice gate stands.
pub proof fn law_settings_outlive_the_engine(b: Bridge, on: bool, steps: Seq<Step>)
    ensures
        after_steps(Bridge { denoise: on, ..b }, steps).denoise == on,
        after_steps(Bridge { denoise: on, ..b }, steps).running == after_steps(b, steps).running,
        after_steps(Bridge { denoise: on, ..b }, steps).threshold == after_steps(
            b,
            steps,
        ).threshold,
        (forall|i: int| 0 <= i < steps.len() ==> !(#[trigger] steps[i] is Threshold))
            ==> after_steps(b, steps).threshold == b.threshold,
    decreases steps.len(),
{
    if steps.len() > 0 {
        let t = steps.drop_last();
        law_settings_outlive_the_engine(b, on, t);
        if forall|i: int| 0 <= i < steps.len() ==> !(#[trigger] steps[i] is Threshold) {
            assert forall|i: int| 0 <= i < t.len() implies !(#[trigger] t[i] is Threshold) by {
                assert(t[i] == steps[i]);
            }
            assert(!(steps[steps.len() - 1] is Threshold));
        }
    }
}

/// Whether or not one was running, a start that succeeds leaves a bridge with something to
/// show and one that fails leaves none, the one before it included.
pub proof fn law_a_start_replaces_what_was_running<S>(b: Bridge, ok: bool, counted: S)
    ensures
        once_started(b, ok).running == ok,
        shown(once_started(b, ok), counted) is Some <==> ok,
        once_started(b, ok) == once_started(once_stopped(b), ok),
{
}

/// A stop leaves no bridge and nothing to show, and a second one changes nothing.
pub proof fn law_a_stop_can_be_repeated<S>(b: Bridge, counted: S)
    ensures
        !once_stopped(b).running,
        shown(once_stopped(b), counted) is None,
        once_stopped(once_stopped(b)) == once_stopped(b),
{
}

/// What an endpoint is for.
#[derive(Debug, Clone, Copy, PartialEq, Eq, Structural)]
pub enum Role {
    Tap,
    Speaker,
    Microphone,
    Feed,
}

/// One device the bridge wants attached, and the device that is. Nothing is attached
/// whenever the device is not there.
#[derive(Debug)]
pub struct Endpoint {
    pub role: Role,
    pub uid: String,
    pub direction: Direction,
    pub attached: Option<u32>,
}

/// The four devices of a bridge, none attached.
pub fn endpoints(tap: &str, feed: &str, input_uid: &str, output_uid: &str) -> (r: Vec<Endpoint>)
    ensures
        r@.len() == 4,
        r@[0].role == Role::Tap && r@[0].uid@ == tap@ && r@[0].direction == Direction::Input,
        r@[1].role == Role::Feed && r@[1].uid@ == feed@ && r@[1].direction == Direction::Output,
        r@[2].role == Role::Microphone && r@[2].uid@ == input_uid@ && r@[2].direction
            == Direction::Input,
        r@[3].role == Role::Speaker && r@[3].uid@ == output_uid@ && r@[3].direction
            == Direction::Output,
        forall|i: int| 0 <= i < 4 ==> (#[trigger] r@[i]).attached is None,
{
    vec![
        Endpoint {
            role: Role::Tap,
            uid: tap.to_owned(),
            direction: Direction::Input,
            attached: None,
        },
        Endpoint {
            role: Role::Feed,
            uid: feed.to_owned(),
            direction: Direction::Output,
            attached: None,
        },
        Endpoint {
            role: Role::Microphone,
            uid: input_uid.to_owned(),
            direction: Direction::Input,
            attached: None,
        },
        Endpoint {
            role: Role::Speaker,
            uid: output_uid.to_owned(),
            direction: Direction::Output,
            attached: None,
        },
    ]
}

/// What is due for an endpoint.
#[derive(Debug, Clone, Copy, PartialEq, Eq, Structural)]
pub enum Due {
    /// Nothing.
    Leave,
    /// Its device went away.
    Detach,
    /// Its device is there and has to be attached, whatever was attached before let go
    /// first.
    Attach,
}

/// What is due for an endpoint, given the device that has its UID now.
pub open spec fn due_for(live: Option<u32>, attached: Option<u32>) -> Due {
    match (live, attached) {
        (Some(id), Some(a)) => if id == a {
            Due::Leave
        } else {
            Due::Attach
        },
        (Some(_), None) => Due::Attach,
        (None, None) => Due::Leave,
        (None, Some(_)) => Due::Detach,
    }
}

/// What is due for an endpoint, given the device that has its UID now.
pub fn due(live: Option<u32>, attached: Option<u32>) -> (r: Due)
    ensures
        r == due_for(live, attached),
{
    match (live, attached) {
        (Some(id), Some(a)) => if id == a {
            Due::Leave
        } else {
            Due::Attach
        },
        (Some(_), None) => Due::Attach,
        (None, None) => Due::Leave,
        (None, Some(_)) => Due::Detach,
    }
}

/// What is attached once what was due was done.
pub open spec fn attached_after(
    live: Option<u32>,
    attached: Option<u32>,
    tried: Result<u32, String>,
) -> Option<u32> {
    match due_for(live, attached) {
        Due::Leave => attached,
        Due::Detach => None,
        Due::Attach => match tried {
            Ok(id) => Some(id),
            Err(_) => None,
        },
    }
}

/// Something came or went.
pub open spec fn is_change(
    live: Option<u32>,
    attached: Option<u32>,
    tried: Result<u32, String>,
) -> bool {
    match due_for(live, attached) {
        Due::Leave => false,
        Due::Detach => true,
        Due::Attach => tried is Ok,
    }
}

/// What one look at an endpoint came to.
#[derive(Debug)]
pub struct Look {
    /// The device that has its UID now.
    pub live: Option<u32>,
    /// What attaching it came to, where that was due.
    pub tried: Result<u32, String>,
}

/// Attaches every endpoint that is missing, and drops any whose device has gone. Says
/// whether anything changed. Runs once at startup and once a second after that, so a
/// speaker that drops out and one that was never there go through the one path.
pub fn reconcile(endpoints: Vec<Endpoint>, looks: &Vec<Look>) -> (r: (Vec<Endpoint>, bool))
    requires
        looks@.len() == endpoints@.len(),
    ensures
        r.0@.len() == endpoints@.len(),
        forall|i: int|
            #![trigger r.0@[i]]
            0 <= i < endpoints@.len() ==> r.0@[i] == (Endpoint {
                attached: attached_after(
                    looks@[i].live,
                    endpoints@[i].attached,
                    looks@[i].tried,
                ),
                ..endpoints@[i]
            }),
        r.1 == exists|i: int|
            #![trigger looks@[i]]
            0 <= i < endpoints@.len() && is_change(
                looks@[i].live,
                endpoints@[i].attached,
                looks@[i].tried,
            ),
{
    let ghost all = endpoints@;
    let mut out: Vec<Endpoint> = Vec::new();
    let mut changed: bool = false;
    for e in it: endpoints
        invariant
            it.seq() == all,
            looks@.len() == all.len(),
            out@.len() == it.index(),
            forall|i: int|
                #![trigger out@[i]]
                0 <= i < it.index() ==> out@[i] == (Endpoint {
                    attached: attached_after(
                        looks@[i].live,
                        all[i].attached,
                        looks@[i].tried,
                    ),
                    ..all[i]
                }),
            changed == exists|i: int|
                #![trigger looks@[i]]
                0 <= i < it.index() && is_change(
                    looks@[i].live,
                    all[i].attached,
                    looks@[i].tried,
                ),
    {
        let at = out.len();
        let look = &looks[at];
        let was = e.attached;
        let attached: Option<u32> = match due(look.live, was) {
            Due::Leave => was,
            Due::Detach => {
                changed = true;
                None
            },
            Due::Attach => match &look.tried {
                Ok(id) => {
                    changed = true;
                    Some(*id)
                },
                Err(_) => None,
            },
        };
        out.push(Endpoint { role: e.role, uid: e.uid, direction: e.direction, attached });
    }
    (out, changed)
}

/// The first endpoint of a role has its device.
pub open spec fn has_role(endpoints: Seq<Endpoint>, role: Role) -> bool
    decreases endpoints.len(),
{
    if endpoints.len() == 0 {
        false
    } else if endpoints[0].role == role {
        endpoints[0].attached is Some
    } else {
        has_role(endpoints.drop_first(), role)
    }
}

/// Whether the first endpoint of a role has its device.
pub fn is_attached(endpoints: &Vec<Endpoint>, role: Role) -> (r: bool)
    ensures
        r == has_role(endpoints@, role),
{
    let ghost all = endpoints@;
    assert(all.skip(0) =~= all);
    for i in 0..endpoints.len()
        invariant
            all == endpoints@,
            has_role(all, role) == has_role(all.skip(i as int), role),
    {
        assert(all.skip(i as int).drop_first() =~= all.skip(i + 1));
        if endpoints[i].role == role {
            return endpoints[i].attached.is_some();
        }
    }
    assert(all.skip(all.len() as int).len() == 0);
    false
}

/// Whether a measured correction applies: it was measured for a speaker and a microphone
/// together, and half a pair is not the thing that was measured.
pub fn correction_applies(endpoints: &Vec<Endpoint>) -> (r: bool)
    ensures
        r == (has_role(endpoints@, Role::Speaker) && has_role(endpoints@, Role::Microphone)),
{
    is_attached(endpoints, Role::Speaker) && is_attached(endpoints, Role::Microphone)
}

/// What the bridge has moved.
#[derive(Debug, Clone, Copy, PartialEq, Eq, Structural)]
pub struct Counters {
    pub tap_frames: u64,
    pub speaker_frames: u64,
    pub microphone_frames: u64,
    pub feed_frames: u64,
    /// Frames that had to be invented because a ring ran dry, or dropped because it ran
    /// over.
    pub glitched: u64,
    /// Frames thrown away to pull a ring back to its target.
    pub resynced: u64,
}

impl Default for Counters {
    fn default() -> (r: Self)
        ensures
            r == (Counters {
                tap_frames: 0,
                speaker_frames: 0,
                microphone_frames: 0,
                feed_frames: 0,
                glitched: 0,
                resynced: 0,
            }),
    {
        Counters {
            tap_frames: 0,
            speaker_frames: 0,
            microphone_frames: 0,
            feed_frames: 0,
            glitched: 0,
            resynced: 0,
        }
    }
}

impl Counters {
    /// Books what a resampler could not deliver.
    pub fn count(&mut self, loss: Loss)
        ensures
            *final(self) == (Counters {
                glitched: old(self).glitched.wrapping_add(loss.starved as u64),
                resynced: old(self).resynced.wrapping_add(loss.dropped as u64),
                ..*old(self)
            }),
    {
        self.glitched = self.glitched.wrapping_add(loss.starved as u64);
        self.resynced = self.resynced.wrapping_add(loss.dropped as u64);
    }

    /// Everything that was lost on the way, with what the three rings could not queue.
    pub fn glitches(&self, render_lost: usize, capture_lost: usize, clean_lost: usize) -> (r: u64)
        requires
            self.glitched + render_lost + capture_lost + clean_lost <= u64::MAX,
        ensures
            r == self.glitched + render_lost + capture_lost + clean_lost,
    {
        self.glitched + render_lost as u64 + capture_lost as u64 + clean_lost as u64
    }
}

/// How many samples of a block of input are frames that fit, or that the block has to be
/// dropped whole.
pub fn block_frames(samples: usize, channels: usize) -> (r: Result<usize, usize>)
    requires
        channels > 0,
    ensures
        r == (if samples / channels > MAX_BLOCK_FRAMES {
            Err::<usize, usize>(samples / channels)
        } else {
            Ok(samples / channels)
        }),
{
    let frames = samples / channels;
    if frames > MAX_BLOCK_FRAMES {
        Err(frames)
    } else {
        Ok(frames)
    }
}

/// What the thread that runs the canceller keeps between frames.
#[derive(Debug, Clone, Copy)]
pub struct Worker {
    /// The samples in one frame.
    pub frame: usize,
    /// The microphone's rate that its resampler was built for, as the bits of the number
    /// it is.
    pub known_rate: Option<u64>,
    /// Whether it has said that the canceller is failing.
    pub complained: bool,
}

/// What the thread does on waking, before it works on frames.
#[derive(Debug, Clone, Copy, PartialEq, Eq, Structural)]
pub struct Wake {
    /// Whether the microphone's resampler has to be built anew.
    pub rebuild: bool,
    /// How many samples of reference to throw away.
    pub skip: usize,
}

/// The samples of reference to throw away of a backlog: all but one frame of one that is
/// too long. It is either the tap's startup burst or a machine that was too busy, and
/// either way the audio is stale.
pub open spec fn stale_samples(backlog: int, frame: int) -> int {
    if backlog > frame * BACKLOG_FRAMES {
        backlog - frame
    } else {
        0
    }
}

/// What a frame came to.
#[derive(Debug, Clone, Copy, PartialEq, Eq, Structural)]
pub enum Cancelled {
    /// There is a cleaned frame.
    Cleaned,
    /// There is nothing to hand on yet.
    Nothing,
    /// The canceller failed.
    Failed,
}

/// What becomes of a frame.
#[derive(Debug, Clone, Copy, PartialEq, Eq, Structural)]
pub enum Next {
    /// It goes through the suppressor and on to the apps, and the next frame follows.
    Deliver,
    /// The next frame follows.
    Carry,
    /// No more frames until the next waking, and something has to be said about it.
    StopAloud,
    /// No more frames until the next waking.
    Stop,
}

impl Worker {
    /// A thread that has done nothing.
    pub fn new(frame: usize) -> (r: Self)
        ensures
            r == (Worker { frame, known_rate: None, complained: false }),
    {
        Worker { frame, known_rate: None, complained: false }
    }

    /// What to do on waking, given the rate of the microphone where one was attached, and
    /// how many samples of reference are queued.
    pub fn wake(&mut self, rate: Option<u64>, backlog: usize) -> (r: Wake)
        requires
            0 < old(self).frame,
            old(self).frame * BACKLOG_FRAMES <= usize::MAX,
        ensures
            r.rebuild == (rate is Some && old(self).known_rate != rate),
            *final(self) == (Worker {
                known_rate: if rate is Some {
                    rate
                } else {
                    old(self).known_rate
                },
                ..*old(self)
            }),
            r.skip == stale_samples(backlog as int, old(self).frame as int),
    {
        let mut rebuild: bool = false;
        if let Some(now) = rate {
            rebuild = match self.known_rate {
                Some(known) => known != now,
                None => true,
            };
            self.known_rate = rate;
        }
        let skip: usize = if backlog > self.frame * BACKLOG_FRAMES {
            backlog - self.frame
        } else {
            0
        };
        Wake { rebuild, skip }
    }

    /// Whether there is another frame to work on, given how many samples of reference are
    /// queued by now. What arrives while a frame is worked on is worked on at once.
    pub fn goes_on(&self, queued: usize) -> (r: bool)
        ensures
            r == (queued >= self.frame),
    {
        queued >= self.frame
    }

    /// What becomes of a frame that was worked on. A failure is said out loud only once.
    pub fn frame_done(&mut self, came: Cancelled) -> (r: Next)
        ensures
            r == (match came {
                Cancelled::Cleaned => Next::Deliver,
                Cancelled::Nothing => Next::Carry,
                Cancelled::Failed => if old(self).complained {
                    Next::Stop
                } else {
                    Next::StopAloud
                },
            }),
            *final(self) == (Worker {
                complained: old(self).complained || came is Failed,
                ..*old(self)
            }),
    {
        match came {
            Cancelled::Cleaned => Next::Deliver,
            Cancelled::Nothing => Next::Carry,
            Cancelled::Failed => {
                if self.complained {
                    Next::Stop
                } else {
                    self.complained = true;
                    Next::StopAloud
                }
            },
        }
    }
}

/// What is queued once a frame was worked on, more having arrived meanwhile.
pub open spec fn after_frames(queued: int, frame: int, arrived: Seq<nat>) -> int
    decreases arrived.len(),
{
    if arrived.len() == 0 {
        queued
    } else {
        after_frames(queued, frame, arrived.drop_last()) - frame + arrived.last()
    }
}

/// A run of frames that the thread works on: there was a whole one each time, and none is
/// left at the end.
pub open spec fn is_worked_off(queued: int, frame: int, arrived: Seq<nat>) -> bool {
    &&& forall|i: int|
        0 <= i < arrived.len() ==> #[trigger] after_frames(queued, frame, arrived.take(i)) >= frame
    &&& after_frames(queued, frame, arrived) < frame
}

/// After waking there are at most five frames of reference, just one where any were thrown
/// away, and the thread never leaves a whole one behind, whatever arrives while it works.
/// Nothing is worked on twice and nothing is lost: what came in is what was worked on and
/// what is left.
pub proof fn law_the_reference_never_piles_up(backlog: int, frame: int, arrived: Seq<nat>)
    requires
        backlog >= 0,
        frame > 0,
        is_worked_off(backlog - stale_samples(backlog, frame), frame, arrived),
    ensures
        ({
            let queued = backlog - stale_samples(backlog, frame);
            let left = after_frames(queued, frame, arrived);
            &&& 0 <= queued <= frame * BACKLOG_FRAMES
            &&& stale_samples(backlog, frame) > 0 ==> queued == frame
            &&& 0 <= left < frame
            &&& queued + sum_of(arrived, |n: nat| n as int) == frame * arrived.len() + left
        }),
{
    let queued = backlog - stale_samples(backlog, frame);
    assert(frame * BACKLOG_FRAMES == frame * 5);
    lemma_after_frames(queued, frame, arrived);
}

proof fn lemma_after_frames(queued: int, frame: int, arrived: Seq<nat>)
    requires
        queued >= 0,
        frame > 0,
        forall|i: int|
            0 <= i < arrived.len() ==> #[trigger] after_frames(queued, frame, arrived.take(i))
                >= frame,
    ensures
        after_frames(queued, frame, arrived) >= 0,
        queued + sum_of(arrived, |n: nat| n as int) == frame * arrived.len() + after_frames(
            queued,
            frame,
            arrived,
        ),
    decreases arrived.len(),
{
    if arrived.len() > 0 {
        let t = arrived.drop_last();
        assert(arrived.take(arrived.len() - 1) =~= t);
        assert forall|i: int| 0 <= i < t.len() implies #[trigger] after_frames(
            queued,
            frame,
            t.take(i),
        ) >= frame by {
            assert(t.take(i) =~= arrived.take(i));
        }
        lemma_after_frames(queued, frame, t);
        assert(after_frames(queued, frame, arrived.take(arrived.len() - 1)) >= frame);
        assert(frame * arrived.len() == frame * t.len() + frame) by (nonlinear_arith)
            requires
                arrived.len() == t.len() + 1,
        ;
    } else {
        assert(frame * arrived.len() == 0) by (nonlinear_arith)
            requires
                arrived.len() == 0,
        ;
    }
}

/// Once a device that is there was attached under the id it has, another look at it
/// changes nothing.
pub proof fn law_reconciling_settles(id: u32, attached: Option<u32>, tried: Result<u32, String>)
    requires
        tried matches Ok(got) ==> got == id,
        tried is Ok,
    ensures
        attached_after(Some(id), attached, tried) == Some(id),
        due_for(Some(id), attached_after(Some(id), attached, tried)) == Due::Leave,
        !is_change(Some(id), attached_after(Some(id), attached, tried), tried),
{
}

/// A threshold between nothing and one stays as it is, a larger one becomes one, and a negative
/// one, or what is no number, becomes nothing. What was clamped stays as it is.
pub proof fn law_a_threshold_is_clamped(bits: u32)
    ensures
        bits <= 0x3f80_0000 ==> clamped(bits) == bits,
        0x3f80_0000 < bits <= 0x7f80_0000 ==> clamped(bits) == 0x3f80_0000,
        0x7f80_0000 < bits < 0x8000_0000 ==> clamped(bits) == 0,
        bits > 0x8000_0000 ==> clamped(bits) == 0,
        clamped(clamped(bits)) == clamped(bits),
{
}

/// Of endpoints that each play a part of their own, a part is taken exactly where the one that
/// plays it is attached to a device.
pub proof fn law_a_part_is_taken_where_it_is_attached(endpoints: Seq<Endpoint>, role: Role)
    requires
        forall|i: int, j: int|
            0 <= i < j < endpoints.len() ==> (#[trigger] endpoints[i]).role != (
            #[trigger] endpoints[j]).role,
    ensures
        has_role(endpoints, role) <==> exists|i: int|
            0 <= i < endpoints.len() && (#[trigger] endpoints[i]).role == role
                && endpoints[i].attached is Some,
    decreases endpoints.len(),
{
    if endpoints.len() > 0 {
        let rest = endpoints.drop_first();
        assert forall|i: int| 0 <= i < rest.len() implies rest[i] == #[trigger] endpoints[i + 1] by {}
        assert forall|i: int, j: int| 0 <= i < j < rest.len() implies (#[trigger] rest[i]).role != (
        #[trigger] rest[j]).role by {
            assert(endpoints[i + 1].role != endpoints[j + 1].role);
        }
        law_a_part_is_taken_where_it_is_attached(rest, role);
        if exists|i: int|
            0 <= i < endpoints.len() && (#[trigger] endpoints[i]).role == role
                && endpoints[i].attached is Some {
            let i = choose|i: int|
                0 <= i < endpoints.len() && (#[trigger] endpoints[i]).role == role
                    && endpoints[i].attached is Some;
            if i > 0 {
                assert(rest[i - 1] == endpoints[i]);
                assert(endpoints[0].role != endpoints[i].role);
            }
        }
        if has_role(rest, role) && endpoints[0].role != role {
            let i = choose|i: int|
                0 <= i < rest.len() && (#[trigger] rest[i]).role == role && rest[i].attached is Some;
            assert(endpoints[i + 1].role == role);
        }
    }
}

/// An endpoint ends up on the device that is live where it can be attached, stays where it
/// already was on it, and is on none where none is live.
pub proof fn law_an_endpoint_follows_its_device(
    live: Option<u32>,
    attached: Option<u32>,
    tried: Result<u32, String>,
)
    ensures
        live is None ==> attached_after(live, attached, tried) is None,
        live is Some && live == attached ==> attached_after(live, attached, tried) == attached
            && !is_change(live, attached, tried),
        live is Some && live != attached && tried is Ok ==> attached_after(live, attached, tried)
            == Some(tried->Ok_0) && is_change(live, attached, tried),
        live is Some && live != attached && tried is Err ==> attached_after(live, attached, tried)
            is None && !is_change(live, attached, tried),
        live is None ==> is_change(live, attached, tried) == (attached is Some),
{
}

/// A backlog of up to five frames is kept whole.
pub proof fn law_a_short_backlog_is_kept(backlog: int, frame: int)
    requires
        frame > 0,
    ensures
        0 <= backlog <= 5 * frame ==> stale_samples(backlog, frame) == 0,
        backlog > 5 * frame ==> stale_samples(backlog, frame) == backlog - frame,
{
    assert(frame * BACKLOG_FRAMES == 5 * frame) by (nonlinear_arith);
}

} // verus!
