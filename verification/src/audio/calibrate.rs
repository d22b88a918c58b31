//! Measures the real round trip from a speaker to a microphone: what may be measured,
//! what is played when, and what the readings come to.
//!
//! The real devices are opened directly, never ours: playing into a virtual device would
//! measure our own loopback and hand back a confident number that had never been near a
//! room. Readings are held as the bit patterns of the numbers they are, in the total
//! order of those numbers.
use vstd::prelude::*;
use crate::order;
use crate::order::Ranked;
use crate::text;

verus! {

/// Probes played and thrown away before any are believed: the early readings of a
/// Bluetooth speaker are those of a link that has not finished starting.
pub const WARMUP_PROBES: usize = 4;

/// How many probes have to come back with a clear peak for the run to count.
pub const MIN_CLEAR: usize = 3;

/// Room for the warm-up as well as the probes that are kept.
pub const MAX_MARKS: usize = 24;

/// The most probes that are kept.
pub const MAX_PROBES: usize = 20;

pub const DEFAULT_PROBES: usize = 6;

/// How many probes are kept where nobody says.
pub fn default_probes() -> (r: usize)
    ensures
        r == DEFAULT_PROBES,
{
    DEFAULT_PROBES
}

/// A UID is that of one of the virtual devices.
pub open spec fn is_virtual(uid: Seq<char>) -> bool {
    "WSSpeaker"@.is_prefix_of(uid) || "WSMicrophone"@.is_prefix_of(uid)
}

/// Why a virtual device is refused.
pub open spec fn virtual_refusal(uid: Seq<char>) -> Seq<char> {
    uid
        + " is one of the wsctl virtual devices. Calibrating against it would measure the bridge's own loopback rather than the room, so pick the real hardware: wsctl audio devices"@
}

/// Refuses the virtual devices.
pub fn refuse_virtual(uid: &str) -> (r: Result<(), String>)
    ensures
        match r {
            Ok(_) => !is_virtual(uid@),
            Err(e) => is_virtual(uid@) && e@ == virtual_refusal(uid@),
        },
{
    if text::starts_with(uid, "WSSpeaker") || text::starts_with(uid, "WSMicrophone") {
        let mut out: String = uid.to_owned();
        out.append(
            " is one of the wsctl virtual devices. Calibrating against it would measure the bridge's own loopback rather than the room, so pick the real hardware: wsctl audio devices",
        );
        return Err(out);
    }
    Ok(())
}

/// What a run plays.
#[derive(Debug, Clone, Copy, PartialEq, Eq, Structural)]
pub struct Rounds {
    /// The probes that are kept.
    pub kept: usize,
    /// All probes that are played, the warm-up first.
    pub played: usize,
}

impl Rounds {
    /// The probes whose marks are read: those after the warm-up.
    pub open spec fn marks(self) -> Seq<usize> {
        Seq::new((self.played - WARMUP_PROBES) as nat, |i: int| (WARMUP_PROBES + i) as usize)
    }

    /// The probes whose marks are read: those after the warm-up.
    pub fn kept_marks(&self) -> (r: Vec<usize>)
        requires
            WARMUP_PROBES <= self.played,
        ensures
            r@ == self.marks(),
    {
        let mut out: Vec<usize> = Vec::new();
        for i in WARMUP_PROBES..self.played
            invariant
                WARMUP_PROBES <= self.played,
                out@.len() == i - WARMUP_PROBES,
                forall|k: int| 0 <= k < out@.len() ==> out@[k] == WARMUP_PROBES + k,
        {
            out.push(i);
        }
        assert(out@ =~= self.marks());
        out
    }
}

/// What a run between two devices plays, or why there is none. Neither device may be one
/// of ours, and nothing is opened before that is known.
pub fn run(input_uid: &str, output_uid: &str, probes: usize) -> (r: Result<Rounds, String>)
    ensures
        if is_virtual(output_uid@) {
            r matches Err(e) && e@ == virtual_refusal(output_uid@)
        } else if is_virtual(input_uid@) {
            r matches Err(e) && e@ == virtual_refusal(input_uid@)
        } else {
            &&& r matches Ok(n)
            &&& n.kept == (if probes < 1 {
                1
            } else if probes > MAX_PROBES {
                MAX_PROBES
            } else {
                probes
            })
            &&& n.played == WARMUP_PROBES + n.kept
            &&& n.marks().len() == n.kept
            &&& n.played <= MAX_MARKS
        },
{
    let kept: usize = if probes < 1 {
        1
    } else if probes > MAX_PROBES {
        MAX_PROBES
    } else {
        probes
    };
    match refuse_virtual(output_uid) {
        Ok(_) => {},
        Err(e) => {
            return Err(e);
        },
    }
    match refuse_virtual(input_uid) {
        Ok(_) => {},
        Err(e) => {
            return Err(e);
        },
    }
    Ok(Rounds { kept, played: WARMUP_PROBES + kept })
}

/// Whether a recording can be used, given how many samples were dropped while recording.
/// A ring that overflowed means the recording has a hole in it, and every sample after
/// the hole points at the wrong moment.
pub fn check_recording(lost: usize) -> (r: Result<(), String>)
    ensures
        if lost == 0 {
            r is Ok
        } else {
            r matches Err(e) && e@ == text::decimal(lost as nat)
                + " microphone samples were dropped while recording, so the timing is meaningless"@
        },
{
    if lost > 0 {
        let mut out = text::dec(lost as u64);
        out.append(
            " microphone samples were dropped while recording, so the timing is meaningless",
        );
        return Err(out);
    }
    Ok(())
}

/// One probe's worth of answer.
#[derive(Debug, Clone, Copy, PartialEq, Eq, Structural)]
pub struct Reading {
    /// Whether its peak stood far enough above the background.
    pub clear: bool,
    /// The delay, as the bits of the number it is.
    pub delay: u64,
    /// How far the peak stood above the background, as the bits of the number it is.
    pub confidence: u64,
}

/// Where the number with some bits stands in the total order of such numbers: the sign
/// first, and below zero the larger magnitude first.
pub open spec fn total_rank(bits: u64) -> int {
    if bits < 0x8000_0000_0000_0000u64 {
        bits as int
    } else {
        -1 - (bits - 0x8000_0000_0000_0000u64)
    }
}

fn total_key(bits: u64) -> (r: i64)
    ensures
        r == total_rank(bits),
{
    if bits < 0x8000_0000_0000_0000u64 {
        bits as i64
    } else {
        -1 - ((bits - 0x8000_0000_0000_0000u64) as i64)
    }
}

impl Ranked for Reading {
    open spec fn le(&self, other: &Self) -> bool {
        total_rank(self.delay) <= total_rank(other.delay)
    }

    proof fn le_total(a: &Self, b: &Self) {
    }

    proof fn le_transitive(a: &Self, b: &Self, c: &Self) {
    }

    fn leq(&self, other: &Self) -> (r: bool) {
        total_key(self.delay) <= total_key(other.delay)
    }
}

/// A reading that counts.
pub open spec fn counts() -> spec_fn(Reading) -> bool {
    |r: Reading| r.clear
}

/// The readings that count, the shortest delay first.
pub open spec fn in_order(readings: Seq<Reading>) -> Seq<Reading> {
    order::sorted(readings.filter(counts()))
}

/// The reading with the lowest peak, the first of those that are level.
pub open spec fn faintest(readings: Seq<Reading>) -> Reading
    decreases readings.len(),
{
    if readings.len() <= 1 {
        readings[0]
    } else {
        let before = faintest(readings.drop_last());
        if total_rank(readings.last().confidence) < total_rank(before.confidence) {
            readings.last()
        } else {
            before
        }
    }
}

/// What the readings of a run come to.
#[derive(Debug, Clone, Copy, PartialEq, Eq, Structural)]
pub struct Settled {
    /// The middle one of the delays that count.
    pub measured: u64,
    /// The shortest of them.
    pub lowest: u64,
    /// The longest of them.
    pub highest: u64,
    /// The weakest peak among them, so that the number quoted is the worst case.
    pub confidence: u64,
}

/// Why the readings of a run come to nothing.
#[derive(Debug, Clone, Copy, PartialEq, Eq, Structural)]
pub enum Unsettled {
    /// Not one probe came back.
    Nothing,
    /// Too few came back with a clear peak.
    TooFew { clear: usize, total: usize },
    /// They disagree.
    Disagree,
    /// The delay is too short to have crossed a room.
    TooShort,
    /// The delay is at the far end of the search.
    TooFar,
}

fn clear_ones(readings: &Vec<Reading>) -> (r: Vec<Reading>)
    ensures
        r@ == readings@.filter(counts()),
{
    let mut out: Vec<Reading> = Vec::new();
    proof {
        reveal(Seq::filter);
    }
    assert(out@ =~= readings@.take(0).filter(counts()));
    for i in 0..readings.len()
        invariant
            out@ == readings@.take(i as int).filter(counts()),
    {
        let one = readings[i];
        proof {
            let upto = readings@.take(i as int);
            assert(readings@.take(i + 1) =~= upto.push(one));
            upto.lemma_filter_push(one, counts());
        }
        if one.clear {
            out.push(one);
        }
    }
    assert(readings@.take(readings@.len() as int) =~= readings@);
    out
}

/// Turns the probes into an answer, or says why there is none. Weak peaks are not votes:
/// only readings with a clear peak count. No readings at all is told apart from readings
/// heard badly, since it is a different thing to go and check.
pub fn settle(readings: &Vec<Reading>) -> (r: Result<Settled, Unsettled>)
    ensures
        ({
            let n = readings@.len();
            let s = in_order(readings@);
            if n == 0 {
                r == Err::<Settled, Unsettled>(Unsettled::Nothing)
            } else if s.len() < MIN_CLEAR && s.len() < n {
                r == Err::<Settled, Unsettled>(
                    Unsettled::TooFew { clear: s.len() as usize, total: n as usize },
                )
            } else {
                r == Ok::<Settled, Unsettled>(
                    Settled {
                        measured: s[s.len() as int / 2].delay,
                        lowest: s[0].delay,
                        highest: s.last().delay,
                        confidence: faintest(readings@.filter(counts())).confidence,
                    },
                )
            }
        }),
{
    if readings.len() == 0 {
        return Err(Unsettled::Nothing);
    }
    let clear = clear_ones(readings);
    let ghost votes = clear@;
    let count = clear.len();
    proof {
        order::lemma_sorted_ordered(votes);
        readings@.lemma_filter_len(counts());
    }
    if count < MIN_CLEAR && count < readings.len() {
        return Err(Unsettled::TooFew { clear: count, total: readings.len() });
    }
    assert(count > 0);
    let mut weakest = clear[0];
    assert(votes.take(1)[0] == votes[0]);
    for i in 1..clear.len()
        invariant
            clear@ == votes,
            votes.len() > 0,
            weakest == faintest(votes.take(i as int)),
    {
        assert(votes.take(i + 1).drop_last() =~= votes.take(i as int));
        let one = clear[i];
        if total_key(one.confidence) < total_key(weakest.confidence) {
            weakest = one;
        }
    }
    assert(votes.take(votes.len() as int) =~= votes);
    let sorted = order::sort(clear);
    Ok(
        Settled {
            measured: sorted[count / 2].delay,
            lowest: sorted[0].delay,
            highest: sorted[count - 1].delay,
            confidence: weakest.confidence,
        },
    )
}

/// Whether a settled delay is believed: one bad estimate hiding inside a middle value is
/// exactly the wrong number this exists to catch, so disagreement comes first.
pub fn believe(spread_too_wide: bool, too_short: bool, too_far: bool) -> (r: Result<(), Unsettled>)
    ensures
        r == (if spread_too_wide {
            Err::<(), Unsettled>(Unsettled::Disagree)
        } else if too_short {
            Err(Unsettled::TooShort)
        } else if too_far {
            Err(Unsettled::TooFar)
        } else {
            Ok(())
        }),
{
    if spread_too_wide {
        Err(Unsettled::Disagree)
    } else if too_short {
        Err(Unsettled::TooShort)
    } else if too_far {
        Err(Unsettled::TooFar)
    } else {
        Ok(())
    }
}

/// The numbers that the reasons quote, as they are written.
#[derive(Debug)]
pub struct Quoted {
    pub spread: String,
    pub lowest: String,
    pub highest: String,
    pub measured: String,
    pub searched: String,
}

/// Why a run came to nothing, in words.
pub open spec fn unsettled_text(why: Unsettled, q: Quoted) -> Seq<char> {
    match why {
        Unsettled::Nothing =>
            "not one probe came back: nothing was recorded where the sweeps should have been. Check the speaker is not muted, and that the microphone is the one in the room"@,
        Unsettled::TooFew { clear, total } => "only "@ + text::decimal(clear as nat) + " of "@
            + text::decimal(total as nat)
            + " probes came back with a clear peak, so nothing was measured. Turn the speaker up a little, move the microphone nearer, or quieten the room"@,
        Unsettled::Disagree => "the probes disagree by "@ + q.spread@ + " ms, from "@ + q.lowest@
            + " to "@ + q.highest@ + ", so none of them is trustworthy"@,
        Unsettled::TooShort => "measured "@ + q.measured@
            + " ms, which is too short to have crossed a room. Check the probe is going to the real speaker and not back on itself"@,
        Unsettled::TooFar => "measured "@ + q.measured@ + " ms, at the far end of the "@
            + q.searched@ + " ms searched, which is what a search that found nothing looks like"@,
    }
}

impl Unsettled {
    /// Why a run came to nothing, in words.
    pub fn message(&self, q: &Quoted) -> (r: String)
        ensures
            r@ == unsettled_text(*self, *q),
    {
        match self {
            Unsettled::Nothing =>
                "not one probe came back: nothing was recorded where the sweeps should have been. Check the speaker is not muted, and that the microphone is the one in the room".to_owned(),
            Unsettled::TooFew { clear, total } => {
                let mut out: String = "only ".to_owned();
                let n = text::dec(*clear as u64);
                out.append(n.as_str());
                out.append(" of ");
                let all = text::dec(*total as u64);
                out.append(all.as_str());
                out.append(
                    " probes came back with a clear peak, so nothing was measured. Turn the speaker up a little, move the microphone nearer, or quieten the room",
                );
                out
            },
            Unsettled::Disagree => {
                let mut out: String = "the probes disagree by ".to_owned();
                out.append(q.spread.as_str());
                out.append(" ms, from ");
                out.append(q.lowest.as_str());
                out.append(" to ");
                out.append(q.highest.as_str());
                out.append(", so none of them is trustworthy");
                out
            },
            Unsettled::TooShort => {
                let mut out: String = "measured ".to_owned();
                out.append(q.measured.as_str());
                out.append(
                    " ms, which is too short to have crossed a room. Check the probe is going to the real speaker and not back on itself",
                );
                out
            },
            Unsettled::TooFar => {
                let mut out: String = "measured ".to_owned();
                out.append(q.measured.as_str());
                out.append(" ms, at the far end of the ");
                out.append(q.searched.as_str());
                out.append(" ms searched, which is what a search that found nothing looks like");
                out
            },
        }
    }
}

/// What the speaker's callback does with one block.
#[derive(Debug, Clone, Copy, PartialEq, Eq, Structural)]
pub struct Play {
    /// The probe that starts with this block, counted from zero.
    pub starts: Option<usize>,
    /// Where in the sweep the block begins.
    pub from: usize,
    /// How many frames of it go out.
    pub take: usize,
    /// Where the sweep goes on, or nothing once it is over.
    pub next: Option<usize>,
}

/// Plays silence, and a sweep whenever one was asked for. A sweep always starts at the
/// first sample of a block, so the moment it is marked is the moment its first sample is
/// handed over. `armed` is the probe that was asked for, counted from one, or zero.
pub fn play(position: Option<usize>, armed: usize, frames: usize, signal: usize) -> (r: Option<Play>)
    requires
        position matches Some(p) ==> p <= signal,
    ensures
        match position {
            None => if armed == 0 {
                r is None
            } else {
                &&& r matches Some(p)
                &&& p.starts == Some((armed - 1) as usize)
                &&& p.from == 0
                &&& played(p, frames, signal)
            },
            Some(at) => {
                &&& r matches Some(p)
                &&& p.starts is None
                &&& p.from == at
                &&& played(p, frames, signal)
            },
        },
{
    let (from, starts): (usize, Option<usize>) = match position {
        Some(at) => (at, None),
        None => {
            if armed == 0 {
                return None;
            }
            (0, Some(armed - 1))
        },
    };
    let left = signal - from;
    let take: usize = if frames <= left {
        frames
    } else {
        left
    };
    let end = from + take;
    let next: Option<usize> = if end >= signal {
        None
    } else {
        Some(end)
    };
    Some(Play { starts, from, take, next })
}

/// A block takes as much of the sweep as fits, and the sweep goes on where it ended.
pub open spec fn played(p: Play, frames: usize, signal: usize) -> bool {
    &&& p.take == (if frames <= signal - p.from {
        frames as int
    } else {
        signal - p.from
    })
    &&& p.next == (if p.from + p.take >= signal {
        None::<usize>
    } else {
        Some((p.from + p.take) as usize)
    })
}

/// Frames delivered by the microphone and when, in one word, so that the speaker's side
/// cannot read a count from one block and a time from the next.
pub fn pack_clock(frames: u64, micros: u64) -> (r: u64)
    ensures
        r == ((frames << 32) | (micros & 0xffff_ffff)),
{
    (frames << 32) | (micros & 0xffff_ffff)
}

/// The count and the time in a word. Nothing where the microphone has delivered nothing
/// yet.
pub fn unpack_clock(clock: u64) -> (r: Option<(u64, u64)>)
    ensures
        r == (if clock == 0 {
            None
        } else {
            Some((clock >> 32, clock & 0xffff_ffff))
        }),
{
    if clock == 0 {
        None
    } else {
        Some((clock >> 32, clock & 0xffff_ffff))
    }
}

/// A clock reads back as what was put into it, each half modulo the room it has.
pub proof fn law_the_clock_packs_and_unpacks(frames: u64, micros: u64)
    ensures
        ({
            let clock = (frames << 32) | (micros & 0xffff_ffff);
            &&& clock >> 32 == frames % 0x1_0000_0000
            &&& clock & 0xffff_ffff == micros % 0x1_0000_0000
        }),
{
    assert(((frames << 32) | (micros & 0xffff_ffff)) >> 32 == frames % 0x1_0000_0000)
        by (bit_vector);
    assert(((frames << 32) | (micros & 0xffff_ffff)) & 0xffff_ffff == micros % 0x1_0000_0000)
        by (bit_vector);
}

/// Whatever is settled on lies between the shortest and the longest delay that counted.
pub proof fn law_the_middle_lies_between(readings: Seq<Reading>)
    requires
        in_order(readings).len() > 0,
    ensures
        ({
            let s = in_order(readings);
            let mid = s[s.len() as int / 2];
            total_rank(s[0].delay) <= total_rank(mid.delay) <= total_rank(s.last().delay)
        }),
{
    let votes = readings.filter(counts());
    order::lemma_sorted_ordered(votes);
    let s = in_order(readings);
    let m = s.len() as int / 2;
    if 0 < m {
        assert(s[0].le(&s[m]));
    }
    if m < s.len() - 1 {
        assert(s[m].le(&s[s.len() - 1]));
    }
}

/// A sweep is played out whole: blocks that follow each other take it from where the one
/// before ended to its end, and none takes more than is left.
pub proof fn law_a_sweep_is_played_to_its_end(p: Play, frames: usize, signal: usize)
    requires
        p.from <= signal,
        frames > 0,
        played(p, frames, signal),
    ensures
        match p.next {
            Some(at) => at == p.from + p.take && p.from < at < signal,
            None => p.from + p.take == signal,
        },
{
}

/// Readings are ordered as the numbers whose bit patterns they hold: the sign bit puts a number
/// below every one without it, and among those with it the larger pattern is the smaller number.
pub proof fn law_patterns_are_ordered_as_numbers(a: u64, b: u64)
    ensures
        a < b < 0x8000_0000_0000_0000 ==> total_rank(a) < total_rank(b),
        a < 0x8000_0000_0000_0000 <= b ==> total_rank(b) < total_rank(a),
        0x8000_0000_0000_0000 <= a < b ==> total_rank(b) < total_rank(a),
{
}

/// The readings that are settled on are the clear ones, all of them: none lies below the lowest
/// or above the highest, and none is fainter than the faintest, which is one of them.
pub proof fn law_every_clear_reading_counts(readings: Seq<Reading>, k: int)
    requires
        0 <= k < readings.len(),
        readings[k].clear,
    ensures
        ({
            let s = in_order(readings);
            let f = faintest(readings.filter(counts()));
            &&& s.contains(readings[k])
            &&& total_rank(s[0].delay) <= total_rank(readings[k].delay)
            &&& total_rank(readings[k].delay) <= total_rank(s.last().delay)
            &&& total_rank(f.confidence) <= total_rank(readings[k].confidence)
            &&& readings.contains(f) && f.clear
            &&& forall|i: int|
                0 <= i < s.len() ==> (#[trigger] s[i]).clear && readings.contains(s[i])
        }),
{
    broadcast use vstd::seq_lib::group_to_multiset_ensures, vstd::seq_lib::group_filter_ensures;

    let votes = readings.filter(counts());
    let s = in_order(readings);
    order::lemma_sorted_ordered(votes);
    order::lemma_sorted_multiset(votes);
    assert(counts()(readings[k]));
    assert(readings.contains(readings[k]));
    assert(votes.contains(readings[k]));
    assert(s.to_multiset().count(readings[k]) > 0);
    assert(s.contains(readings[k]));
    let r = choose|r: int| 0 <= r < s.len() && s[r] == readings[k];
    if r > 0 {
        assert(s[0].le(&s[r]));
    }
    if r < s.len() - 1 {
        assert(s[r].le(&s[s.len() - 1]));
    }
    let v = choose|v: int| 0 <= v < votes.len() && votes[v] == readings[k];
    lemma_faintest(votes);
    assert(total_rank(faintest(votes).confidence) <= total_rank(votes[v].confidence));
    lemma_vote(readings, faintest(votes));
    assert forall|i: int| 0 <= i < s.len() implies (#[trigger] s[i]).clear && readings.contains(
        s[i],
    ) by {
        assert(s.to_multiset().count(s[i]) > 0);
        assert(votes.contains(s[i]));
        lemma_vote(readings, s[i]);
    }
}

proof fn lemma_vote(readings: Seq<Reading>, one: Reading)
    requires
        readings.filter(counts()).contains(one),
    ensures
        readings.contains(one),
        one.clear,
{
    let votes = readings.filter(counts());
    let i = choose|i: int| 0 <= i < votes.len() && votes[i] == one;
    readings.lemma_filter_contains_rev(counts(), one);
    readings.lemma_filter_pred(counts(), i);
}

proof fn lemma_faintest(votes: Seq<Reading>)
    requires
        votes.len() > 0,
    ensures
        votes.contains(faintest(votes)),
        forall|i: int|
            0 <= i < votes.len() ==> total_rank(faintest(votes).confidence) <= total_rank(
                (#[trigger] votes[i]).confidence,
            ),
    decreases votes.len(),
{
    if votes.len() > 1 {
        let before = votes.drop_last();
        lemma_faintest(before);
        let k = choose|k: int| 0 <= k < before.len() && before[k] == faintest(before);
        assert(votes[k] == before[k]);
        let last = votes.len() - 1;
        assert(votes[last] == votes.last());
        assert forall|i: int| 0 <= i < votes.len() implies total_rank(faintest(votes).confidence)
            <= total_rank((#[trigger] votes[i]).confidence) by {
            if i < last {
                assert(before[i] == votes[i]);
            }
        }
    } else {
        assert(votes[0] == faintest(votes));
    }
}

/// One of our own devices is told by how its id begins, and a round trip is measured only
/// between two devices of which neither is.
pub proof fn law_our_own_devices_are_told_by_their_ids(rest: Seq<char>, uid: Seq<char>)
    ensures
        is_virtual("WSSpeaker"@ + rest),
        is_virtual("WSMicrophone"@ + rest),
        is_virtual(uid) ==> uid.len() >= 2 && uid[0] == 'W' && uid[1] == 'S',
{
    reveal_strlit("WSSpeaker");
    reveal_strlit("WSMicrophone");
    let a = "WSSpeaker"@;
    let b = "WSMicrophone"@;
    assert((a + rest).subrange(0, a.len() as int) =~= a);
    assert((b + rest).subrange(0, b.len() as int) =~= b);
    if a.is_prefix_of(uid) {
        assert(uid.subrange(0, a.len() as int)[0] == uid[0]);
        assert(uid.subrange(0, a.len() as int)[1] == uid[1]);
    }
    if b.is_prefix_of(uid) {
        assert(uid.subrange(0, b.len() as int)[0] == uid[0]);
        assert(uid.subrange(0, b.len() as int)[1] == uid[1]);
    }
}

} // verus!
