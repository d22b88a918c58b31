//! Audio devices, addressed only by UID.
//!
//! Names are neither unique nor stable, so nothing here looks a device up by one.
use vstd::prelude::*;
use crate::text;

verus! {

/// Which way audio goes.
#[derive(Debug, Clone, Copy, PartialEq, Eq, Structural)]
pub enum Direction {
    Input,
    Output,
}

/// A direction in a word.
pub open spec fn direction_word(d: Direction) -> Seq<char> {
    match d {
        Direction::Input => "Input"@,
        Direction::Output => "Output"@,
    }
}

impl Direction {
    /// The direction in a word.
    pub fn to_text(&self) -> (r: String)
        ensures
            r@ == direction_word(*self),
    {
        match self {
            Direction::Input => "Input".to_owned(),
            Direction::Output => "Output".to_owned(),
        }
    }
}

/// Linear PCM, as formats are numbered.
pub const FORMAT_LINEAR_PCM: u32 = 0x6c70_636d;

/// The flag of samples in floating point.
pub const FLAG_IS_FLOAT: u32 = 1;

/// The block a device hands over where it does not say.
pub const DEFAULT_BLOCK: u32 = 512;

/// What a device reports about itself.
#[derive(Debug, Clone, Copy)]
pub struct Reported {
    pub format_id: u32,
    pub format_flags: u32,
    pub bits_per_channel: u32,
    pub channels: u32,
    /// Whether the rate is more than nothing.
    pub has_rate: bool,
    pub block_frames: Option<u32>,
    pub latency: Option<u32>,
    pub safety_offset: Option<u32>,
    pub stream_latency: Option<u32>,
}

/// What an open device comes to.
#[derive(Debug, Clone, Copy, PartialEq, Eq, Structural)]
pub struct Opened {
    pub channels: usize,
    pub block_frames: u32,
    /// Everything between the callback and the outside world, in frames: the device's
    /// own latency, the safety offset, the stream, and the block already held.
    pub latency_frames: u32,
}

/// A number that may not be reported.
pub open spec fn or_else(n: Option<u32>, other: u32) -> int {
    match n {
        Some(x) => x as int,
        None => other as int,
    }
}

/// Everything between the callback and the outside world, in frames.
pub open spec fn latency_of(d: Reported) -> int {
    or_else(d.latency, 0) + or_else(d.safety_offset, 0) + or_else(d.stream_latency, 0) + or_else(
        d.block_frames,
        DEFAULT_BLOCK,
    )
}

fn given(n: Option<u32>, other: u32) -> (r: u32)
    ensures
        r == or_else(n, other),
{
    match n {
        Some(x) => x,
        None => other,
    }
}

/// Why there is no device with a UID.
pub fn not_found(uid: &str) -> (r: String)
    ensures
        r@ == "no audio device with UID "@ + uid@,
{
    let mut out: String = "no audio device with UID ".to_owned();
    out.append(uid);
    out
}

/// The samples are 32-bit floating point.
pub open spec fn is_float_pcm(d: Reported) -> bool {
    &&& d.format_id == FORMAT_LINEAR_PCM
    &&& d.format_flags & FLAG_IS_FLOAT != 0
    &&& d.bits_per_channel == 32
}

/// What opening a device comes to, given what it reports about itself, or why it cannot
/// be used. `rate` is its rate as it is written.
pub fn open(uid: &str, direction: Direction, d: &Reported, rate: &str) -> (r: Result<
    Opened,
    String,
>)
    requires
        latency_of(*d) <= u32::MAX,
    ensures
        if !is_float_pcm(*d) {
            r matches Err(e) && e@ == uid@
                + " does not present 32-bit float samples to its clients"@
        } else if d.channels == 0 {
            r matches Err(e) && e@ == uid@ + " has no "@ + direction_word(direction)
                + " channels"@
        } else if !d.has_rate {
            r matches Err(e) && e@ == uid@ + " reports a sample rate of "@ + rate@
        } else {
            &&& r matches Ok(o)
            &&& o.channels == d.channels
            &&& o.block_frames == or_else(d.block_frames, DEFAULT_BLOCK)
            &&& o.latency_frames == latency_of(*d)
        },
{
    if d.format_id != FORMAT_LINEAR_PCM || d.format_flags & FLAG_IS_FLOAT == 0
        || d.bits_per_channel != 32 {
        let mut out: String = uid.to_owned();
        out.append(" does not present 32-bit float samples to its clients");
        return Err(out);
    }
    if d.channels == 0 {
        let mut out: String = uid.to_owned();
        out.append(" has no ");
        let way = direction.to_text();
        out.append(way.as_str());
        out.append(" channels");
        return Err(out);
    }
    if !d.has_rate {
        let mut out: String = uid.to_owned();
        out.append(" reports a sample rate of ");
        out.append(rate);
        return Err(out);
    }
    let block_frames = given(d.block_frames, DEFAULT_BLOCK);
    let latency = given(d.latency, 0);
    let safety = given(d.safety_offset, 0);
    let stream = given(d.stream_latency, 0);
    Ok(
        Opened {
            channels: d.channels as usize,
            block_frames,
            latency_frames: latency + safety + stream + block_frames,
        },
    )
}

/// Whether what a device reports can be added up.
pub fn can_open(d: &Reported) -> (r: bool)
    ensures
        r == (latency_of(*d) <= u32::MAX),
{
    let total: u64 = given(d.latency, 0) as u64 + given(d.safety_offset, 0) as u64 + given(
        d.stream_latency,
        0,
    ) as u64 + given(d.block_frames, DEFAULT_BLOCK) as u64;
    total <= u32::MAX as u64
}

/// The device that the system gives for a UID: none where it answers with a failure or
/// with no object.
pub fn find(status: i32, id: u32) -> (r: Option<u32>)
    ensures
        r == (if status == 0 && id != 0 {
            Some(id)
        } else {
            None
        }),
{
    if status == 0 && id != 0 {
        Some(id)
    } else {
        None
    }
}

/// A device that the system lists, with what it reports in one direction.
#[derive(Debug)]
pub struct Candidate {
    pub id: u32,
    pub uid: Option<String>,
    pub reported: Reported,
    /// The rate, as it is written.
    pub rate: String,
}

/// A device that can be used.
#[derive(Debug)]
pub struct Device {
    pub id: u32,
    pub uid: String,
    pub opened: Opened,
}

/// A device, in mathematical terms.
pub struct DeviceRow {
    pub id: u32,
    pub uid: Seq<char>,
    pub channels: int,
    pub block_frames: int,
    pub latency_frames: int,
}

/// Devices, in mathematical terms.
pub open spec fn device_rows(v: Seq<Device>) -> Seq<DeviceRow> {
    Seq::new(
        v.len(),
        |i: int|
            DeviceRow {
                id: v[i].id,
                uid: v[i].uid@,
                channels: v[i].opened.channels as int,
                block_frames: v[i].opened.block_frames as int,
                latency_frames: v[i].opened.latency_frames as int,
            },
    )
}

/// What a listed device comes to: nothing without channels in that direction, without a
/// UID, or where it cannot be opened.
pub open spec fn usable(c: Candidate) -> Option<DeviceRow> {
    match text::text_opt(c.uid) {
        Some(uid) if c.reported.channels > 0 && is_float_pcm(c.reported) && c.reported.has_rate =>
            Some(
            DeviceRow {
                id: c.id,
                uid,
                channels: c.reported.channels as int,
                block_frames: or_else(c.reported.block_frames, DEFAULT_BLOCK),
                latency_frames: latency_of(c.reported),
            },
        ),
        _ => None,
    }
}

/// The devices that can be used among those the system lists.
pub open spec fn usable_in(seen: Seq<Candidate>) -> Seq<DeviceRow>
    decreases seen.len(),
{
    if seen.len() == 0 {
        Seq::empty()
    } else {
        match usable(seen.last()) {
            Some(row) => usable_in(seen.drop_last()).push(row),
            None => usable_in(seen.drop_last()),
        }
    }
}

/// The devices of one direction. One that cannot be opened is left out.
pub fn list(direction: Direction, seen: &Vec<Candidate>) -> (r: Vec<Device>)
    requires
        forall|i: int|
            0 <= i < seen@.len() ==> latency_of((#[trigger] seen@[i]).reported) <= u32::MAX,
    ensures
        device_rows(r@) == usable_in(seen@),
{
    let mut out: Vec<Device> = Vec::new();
    assert(device_rows(out@) =~= usable_in(seen@.take(0)));
    for i in 0..seen.len()
        invariant
            forall|k: int|
                0 <= k < seen@.len() ==> latency_of((#[trigger] seen@[k]).reported) <= u32::MAX,
            device_rows(out@) == usable_in(seen@.take(i as int)),
    {
        let ghost before = out@;
        assert(seen@.take(i + 1).drop_last() =~= seen@.take(i as int));
        let c = &seen[i];
        if c.reported.channels > 0 {
            if let Some(uid) = &c.uid {
                if let Ok(opened) = open(uid, direction, &c.reported, &c.rate) {
                    out.push(Device { id: c.id, uid: uid.clone(), opened });
                    assert(device_rows(out@) =~= device_rows(before).push(usable(*c)->0));
                }
            }
        }
    }
    assert(seen@.take(seen@.len() as int) =~= seen@);
    out
}

/// Where the channels of every frame of a block end up on a device that has other
/// channels: each takes the one whose number it comes to, counted round.
pub open spec fn fanned<T>(src: Seq<T>, from: int, to: int) -> Seq<T> {
    Seq::new(
        (src.len() as int / from * to) as nat,
        |i: int| src[i / to * from + (i % to) % from],
    )
}

/// Spreads every frame of a block over the channels of a device, from the start of `dst`.
/// Nothing is allocated, so that an audio thread may call it.
pub fn fan_out<T: Copy>(src: &[T], from: usize, dst: &mut Vec<T>, to: usize)
    requires
        0 < from,
        0 < to,
        src@.len() as int / from as int * to <= old(dst)@.len(),
    ensures
        ({
            let spread = fanned(src@, from as int, to as int);
            final(dst)@ == spread + old(dst)@.skip(spread.len() as int)
        }),
{
    let samples = src.len();
    let frames = samples / from;
    let ghost first = dst@;
    let ghost want = fanned(src@, from as int, to as int);
    assert(frames * from <= src@.len() && 0 <= frames * to) by (nonlinear_arith)
        requires
            frames == src@.len() as int / from as int,
            from > 0,
            to > 0,
    ;
    assert(0 * to as int == 0);
    assert(dst@ =~= want.take(0) + first.skip(0));
    assert(first.len() == dst.len());
    for f in 0..frames
        invariant
            0 < from,
            0 < to,
            frames == src@.len() as int / from as int,
            samples == src@.len(),
            frames * from <= samples,
            want == fanned(src@, from as int, to as int),
            want.len() == frames * to,
            want.len() <= first.len(),
            first.len() <= usize::MAX,
            0 <= f * to <= want.len(),
            dst@ == want.take(f * to) + first.skip(f * to),
    {
        proof {
            assert(f * from + from <= frames * from && f * to + to <= frames * to && 0 <= f * from
                && 0 <= f * to) by (nonlinear_arith)
                requires
                    0 <= f < frames,
                    from > 0,
                    to > 0,
            ;
        }
        for c in 0..to
            invariant
                0 < from,
                0 < to,
                f < frames,
                frames == src@.len() as int / from as int,
                samples == src@.len(),
                frames * from <= samples,
                want == fanned(src@, from as int, to as int),
                want.len() == frames * to,
                want.len() <= first.len(),
                first.len() <= usize::MAX,
                f * from + from <= frames * from,
                f * to + to <= frames * to,
                0 <= f * from,
                0 <= f * to,
                dst@ == want.take(f * to + c) + first.skip(f * to + c),
        {
            proof {
                lemma_place(f as int, c as int, to as int);
                let k = f * to + c;
                assert(want[k] == src@[k / (to as int) * from + (k % (to as int)) % (from as int)]);
            }
            let at = f * from + c % from;
            dst.set(f * to + c, src[at]);
            assert(dst@ =~= want.take(f * to + (c + 1)) + first.skip(f * to + (c + 1)));
        }
        assert(f * to + to == (f + 1) * to) by (nonlinear_arith);
    }
    assert(want.take(want.len() as int) =~= want);
}

proof fn lemma_place(f: int, c: int, to: int)
    requires
        0 <= f,
        0 <= c < to,
    ensures
        (f * to + c) / to == f,
        (f * to + c) % to == c,
{
    vstd::arithmetic::div_mod::lemma_fundamental_div_mod_converse(f * to + c, to, f, c);
}

/// Every device that has an id of its own, a channel and a rate, and that takes 32-bit floats,
/// can be used, under what it reported; no other can.
pub proof fn law_every_device_that_can_be_used_is_listed(seen: Seq<Candidate>, row: DeviceRow)
    ensures
        usable_in(seen).contains(row) <==> exists|i: int|
            {
                &&& 0 <= i < seen.len()
                &&& (#[trigger] seen[i]).uid is Some
                &&& seen[i].reported.channels > 0
                &&& seen[i].reported.has_rate
                &&& is_float_pcm(seen[i].reported)
                &&& row.id == seen[i].id
                &&& row.uid == seen[i].uid->0@
                &&& row.channels == seen[i].reported.channels
                &&& row.block_frames == or_else(seen[i].reported.block_frames, DEFAULT_BLOCK)
                &&& row.latency_frames == or_else(seen[i].reported.latency, 0) + or_else(
                    seen[i].reported.safety_offset,
                    0,
                ) + or_else(seen[i].reported.stream_latency, 0) + or_else(
                    seen[i].reported.block_frames,
                    DEFAULT_BLOCK,
                )
            },
    decreases seen.len(),
{
    let all = usable_in(seen);
    if seen.len() > 0 {
        let front = seen.drop_last();
        let before = usable_in(front);
        let last = seen.len() - 1;
        law_every_device_that_can_be_used_is_listed(front, row);
        assert forall|i: int| 0 <= i < front.len() implies front[i] == #[trigger] seen[i] by {}
        assert(seen[last] == seen.last());
        assert(all.contains(row) <==> before.contains(row) || usable(seen.last()) == Some(row)) by {
            if all.contains(row) {
                let j = choose|j: int| 0 <= j < all.len() && all[j] == row;
                if j < before.len() {
                    assert(before[j] == row);
                }
            }
            if before.contains(row) {
                let j = choose|j: int| 0 <= j < before.len() && before[j] == row;
                assert(all[j] == row);
            }
            if usable(seen.last()) == Some(row) {
                assert(all[before.len() as int] == row);
            }
        }
        if before.contains(row) {
            let i = choose|i: int|
                {
                    &&& 0 <= i < front.len()
                    &&& (#[trigger] front[i]).uid is Some
                    &&& front[i].reported.channels > 0
                    &&& front[i].reported.has_rate
                    &&& is_float_pcm(front[i].reported)
                    &&& row.id == front[i].id
                    &&& row.uid == front[i].uid->0@
                    &&& row.channels == front[i].reported.channels
                    &&& row.block_frames == or_else(front[i].reported.block_frames, DEFAULT_BLOCK)
                    &&& row.latency_frames == or_else(front[i].reported.latency, 0) + or_else(
                        front[i].reported.safety_offset,
                        0,
                    ) + or_else(front[i].reported.stream_latency, 0) + or_else(
                        front[i].reported.block_frames,
                        DEFAULT_BLOCK,
                    )
                };
            assert(seen[i].uid is Some);
        }
        assert forall|i: int| 0 <= i < front.len() && (#[trigger] seen[i]).uid is Some implies
            front[i] == seen[i] by {}
        assert(usable(seen.last()) == Some(row) ==> seen[last].uid is Some);
    }
}

/// Every channel of every frame takes the channel of the same frame whose number it comes to,
/// counted round: a frame is never mixed with another, and no channel is left without a sample.
pub proof fn law_a_frame_is_spread_over_its_own_channels<T>(
    src: Seq<T>,
    from: int,
    to: int,
    frame: int,
    channel: int,
)
    requires
        from > 0,
        to > 0,
        0 <= frame < src.len() as int / from,
        0 <= channel < to,
    ensures
        fanned(src, from, to).len() == src.len() as int / from * to,
        0 <= frame * to + channel < fanned(src, from, to).len(),
        fanned(src, from, to)[frame * to + channel] == src[frame * from + channel % from],
{
    let n = src.len() as int / from;
    let i = frame * to + channel;
    assert(0 <= i < n * to) by (nonlinear_arith)
        requires
            i == frame * to + channel,
            0 <= frame < n,
            0 <= channel < to,
    ;
    vstd::arithmetic::div_mod::lemma_fundamental_div_mod_converse(i, to, frame, channel);
}

} // verus!
